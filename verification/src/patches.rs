//! The square mosaics that the source images of a dataset make.
use crate::discover::{TileRecord, TileView, tile_views};
use crate::ids::{ImageRoot, law_patch_names_distinct, patch_id, patch_name, tile_id, tile_name};
use crate::order::{
    add_number, is_text_before, law_sorted_distinct, lemma_lex_transitive, lemma_text_order, ranks,
    rising, sorted_distinct, text_before,
};
use crate::text::{same_text, texts};
use crate::tile::{Tile, TileBounds, larger, smaller};
use std::collections::HashSet;
use vstd::prelude::*;

verus! {

/// The images that mosaics are made of together: those of one directory, capture and zoom level.
#[derive(Debug)]
pub struct GroupKey {
    pub root: ImageRoot,
    pub capture_id: String,
    pub z: u32,
}

/// What a group is.
pub struct GroupView {
    pub root: ImageRoot,
    pub capture: Seq<char>,
    pub z: u32,
}

impl View for GroupKey {
    type V = GroupView;

    open spec fn view(&self) -> GroupView {
        GroupView { root: self.root, capture: self.capture_id@, z: self.z }
    }
}

/// What a list of groups is.
pub open spec fn group_views(groups: Seq<GroupKey>) -> Seq<GroupView> {
    groups.map_values(|group: GroupKey| group@)
}

/// The group of an image.
pub open spec fn group_of(tile: TileView) -> GroupView {
    GroupView { root: tile.root, capture: tile.capture, z: tile.tile.z }
}

/// The order of groups: by the name of the directory, the capture and the zoom level.
#[verifier::opaque]
pub open spec fn group_before(a: GroupView, b: GroupView) -> bool {
    if a.root != b.root {
        a.root == ImageRoot::DroneView
    } else if a.capture != b.capture {
        text_before(a.capture, b.capture)
    } else {
        a.z < b.z
    }
}

/// How many of the groups at the front come before `group`.
pub open spec fn sooner_groups(groups: Seq<GroupView>, group: GroupView) -> int
    decreases groups.len(),
{
    if groups.len() == 0 || !group_before(groups[0], group) {
        0
    } else {
        1 + sooner_groups(groups.skip(1), group)
    }
}

/// Ordered groups with one more in its place, where it is not there yet.
pub open spec fn with_group(groups: Seq<GroupView>, group: GroupView) -> Seq<GroupView> {
    let at = sooner_groups(groups, group);
    if at < groups.len() && groups[at] == group {
        groups
    } else {
        groups.insert(at, group)
    }
}

/// The groups of the given images in order, each once.
pub open spec fn tile_groups(tiles: Seq<TileView>) -> Seq<GroupView>
    decreases tiles.len(),
{
    if tiles.len() == 0 {
        Seq::empty()
    } else {
        with_group(tile_groups(tiles.drop_last()), group_of(tiles.last()))
    }
}

/// Each group comes before those that follow it.
pub open spec fn groups_rising(groups: Seq<GroupView>) -> bool {
    forall|i: int, j: int|
        0 <= i < j < groups.len() ==> group_before(#[trigger] groups[i], #[trigger] groups[j])
}

proof fn lemma_group_order(a: GroupView, b: GroupView)
    ensures
        a == b ==> !group_before(a, b),
        a != b ==> group_before(a, b) != group_before(b, a),
{
    reveal(group_before);
    lemma_text_order(a.capture, b.capture);
}

proof fn lemma_group_transitive(a: GroupView, b: GroupView, c: GroupView)
    requires
        group_before(a, b),
        group_before(b, c),
    ensures
        group_before(a, c),
{
    reveal(group_before);
    lemma_text_order(a.capture, b.capture);
    lemma_text_order(a.capture, c.capture);
    lemma_text_order(b.capture, c.capture);
    if a.root == b.root && b.root == c.root && a.capture != b.capture && b.capture != c.capture {
        lemma_lex_transitive(
            ranks(a.capture),
            ranks(b.capture),
            ranks(c.capture),
        );
    }
}

proof fn lemma_sooner_groups(groups: Seq<GroupView>, group: GroupView)
    ensures
        0 <= sooner_groups(groups, group) <= groups.len(),
        forall|i: int|
            0 <= i < sooner_groups(groups, group) ==> group_before(#[trigger] groups[i], group),
        sooner_groups(groups, group) < groups.len() ==> !group_before(
            groups[sooner_groups(groups, group)],
            group,
        ),
    decreases groups.len(),
{
    if groups.len() > 0 && group_before(groups[0], group) {
        let rest = groups.skip(1);
        lemma_sooner_groups(rest, group);
        assert forall|i: int| 0 <= i < sooner_groups(groups, group) implies group_before(
            #[trigger] groups[i],
            group,
        ) by {
            if i > 0 {
                assert(rest[i - 1] == groups[i]);
            }
        }
    }
}

proof fn lemma_with_group(groups: Seq<GroupView>, group: GroupView)
    requires
        groups_rising(groups),
    ensures
        groups_rising(with_group(groups, group)),
        forall|g: GroupView| #[trigger]
            with_group(groups, group).contains(g) <==> groups.contains(g) || g == group,
{
    lemma_sooner_groups(groups, group);
    let at = sooner_groups(groups, group);
    let result = with_group(groups, group);
    if at < groups.len() && groups[at] == group {
    } else {
        assert(result[at] == group);
        assert forall|i: int, j: int| 0 <= i < j < result.len() implies group_before(
            #[trigger] result[i],
            #[trigger] result[j],
        ) by {
            if j == at {
                assert(result[i] == groups[i]);
            } else if i == at {
                assert(result[j] == groups[j - 1]);
                lemma_group_order(groups[at], group);
                if j - 1 > at {
                    assert(group_before(groups[at], groups[j - 1]));
                    lemma_group_transitive(group, groups[at], groups[j - 1]);
                }
            } else {
                let p = if i < at {
                    i
                } else {
                    i - 1
                };
                let q = if j < at {
                    j
                } else {
                    j - 1
                };
                assert(result[i] == groups[p] && result[j] == groups[q]);
            }
        }
        assert forall|g: GroupView| result.contains(g) implies groups.contains(g) || g == group by {
            let i = choose|i: int| 0 <= i < result.len() && result[i] == g;
            if i < at {
                assert(groups[i] == g);
            } else if i > at {
                assert(groups[i - 1] == g);
            }
        }
        assert forall|g: GroupView| groups.contains(g) || g == group implies result.contains(g) by {
            if groups.contains(g) {
                let i = choose|i: int| 0 <= i < groups.len() && groups[i] == g;
                if i < at {
                    assert(result[i] == g);
                } else {
                    assert(result[i + 1] == g);
                }
            }
        }
    }
}

/// The groups are those of the images, in order.
pub proof fn law_tile_groups(tiles: Seq<TileView>)
    ensures
        groups_rising(tile_groups(tiles)),
        forall|g: GroupView| #[trigger]
            tile_groups(tiles).contains(g) <==> exists|i: int|
                0 <= i < tiles.len() && group_of(#[trigger] tiles[i]) == g,
    decreases tiles.len(),
{
    if tiles.len() > 0 {
        let front = tiles.drop_last();
        law_tile_groups(front);
        lemma_with_group(tile_groups(front), group_of(tiles.last()));
        assert forall|g: GroupView| #[trigger] tile_groups(tiles).contains(g) implies exists|i: int|
            0 <= i < tiles.len() && group_of(#[trigger] tiles[i]) == g by {
            if tile_groups(front).contains(g) {
                let i = choose|i: int| 0 <= i < front.len() && group_of(#[trigger] front[i]) == g;
                assert(group_of(tiles[i]) == g);
            } else {
                assert(group_of(tiles[tiles.len() - 1]) == g);
            }
        }
        assert forall|g: GroupView|
            (exists|i: int| 0 <= i < tiles.len() && group_of(#[trigger] tiles[i]) == g) implies #[trigger] tile_groups(
        tiles).contains(g) by {
            let i = choose|i: int| 0 <= i < tiles.len() && group_of(#[trigger] tiles[i]) == g;
            if i < front.len() {
                assert(group_of(front[i]) == g);
                assert(tile_groups(front).contains(g));
            }
        }
    }
}

fn is_group_before(a: &GroupKey, root: ImageRoot, capture: &str, z: u32) -> (answer: bool)
    ensures
        answer == group_before(a@, (GroupView { root, capture: capture@, z })),
{
    reveal(group_before);
    if a.root != root {
        return a.root == ImageRoot::DroneView;
    }
    if !same_text(a.capture_id.as_str(), capture) {
        return is_text_before(a.capture_id.as_str(), capture);
    }
    a.z < z
}

fn add_group(groups: &mut Vec<GroupKey>, tile: &TileRecord)
    ensures
        group_views(final(groups)@) == with_group(group_views(old(groups)@), group_of(tile@)),
{
    let ghost whole = group_views(groups@);
    let ghost group = group_of(tile@);
    let mut at: usize = 0;
    assert(whole.skip(0) == whole);
    while at < groups.len() && is_group_before(
        &groups[at],
        tile.root,
        tile.capture_id.as_str(),
        tile.tile.z,
    )
        invariant
            0 <= at <= groups@.len(),
            group_views(groups@) == whole,
            group == group_of(tile@),
            sooner_groups(whole, group) == at + sooner_groups(whole.skip(at as int), group),
        decreases groups@.len() - at,
    {
        assert(whole.skip(at as int)[0] == groups@[at as int]@);
        assert(whole.skip(at as int).skip(1) == whole.skip(at + 1));
        at = at + 1;
    }
    if at < groups.len() {
        assert(whole.skip(at as int)[0] == groups@[at as int]@);
        let found = &groups[at];
        if found.root == tile.root && found.z == tile.tile.z && same_text(
            found.capture_id.as_str(),
            tile.capture_id.as_str(),
        ) {
            assert(whole[at as int] == group);
            return ;
        }
        assert(whole[at as int] != group);
    }
    let ghost before = groups@;
    let added = GroupKey {
        root: tile.root,
        capture_id: tile.capture_id.clone(),
        z: tile.tile.z,
    };
    groups.insert(at, added);
    assert(group_views(groups@) =~= whole.insert(at as int, group));
}

/// The groups of the given images in order.
pub fn groups_of_tiles(tiles: &[TileRecord]) -> (groups: Vec<GroupKey>)
    ensures
        group_views(groups@) == tile_groups(tile_views(tiles@)),
{
    let ghost views = tile_views(tiles@);
    let mut groups: Vec<GroupKey> = Vec::new();
    assert(group_views(groups@) =~= Seq::<GroupView>::empty());
    let mut i: usize = 0;
    while i < tiles.len()
        invariant
            0 <= i <= tiles@.len(),
            views == tile_views(tiles@),
            group_views(groups@) == tile_groups(views.take(i as int)),
        decreases tiles@.len() - i,
    {
        assert(views.take(i + 1).drop_last() == views.take(i as int));
        assert(views[i as int] == tiles@[i as int]@);
        add_group(&mut groups, &tiles[i]);
        i = i + 1;
    }
    assert(views.take(i as int) == views);
    groups
}

/// A group has an image at the given coordinates.
pub open spec fn has_tile(tiles: Seq<TileView>, group: GroupView, x: int, y: int) -> bool {
    exists|i: int|
        0 <= i < tiles.len() && group_of(#[trigger] tiles[i]) == group && tiles[i].tile.x == x
            && tiles[i].tile.y == y
}

/// A group has an image at each place of the square of `size` by `size` tiles from `(x, y)` on.
pub open spec fn complete(tiles: Seq<TileView>, group: GroupView, x: int, y: int, size: int) -> bool {
    forall|u: int, v: int|
        x <= u < x + size && y <= v < y + size ==> #[trigger] has_tile(tiles, group, u, v)
}

/// The smallest and the largest coordinates of some images.
#[derive(Debug, Clone, Copy, PartialEq, Eq, Structural)]
pub struct Extent {
    pub min_x: u32,
    pub max_x: u32,
    pub min_y: u32,
    pub max_y: u32,
}

/// The extent of the images of a group, where it has any.
pub open spec fn group_extent(tiles: Seq<TileView>, group: GroupView) -> Option<Extent>
    decreases tiles.len(),
{
    if tiles.len() == 0 {
        None
    } else {
        let front = group_extent(tiles.drop_last(), group);
        let tile = tiles.last().tile;
        if group_of(tiles.last()) != group {
            front
        } else {
            match front {
                None => Some(Extent { min_x: tile.x, max_x: tile.x, min_y: tile.y, max_y: tile.y }),
                Some(extent) => Some(
                    Extent {
                        min_x: smaller(extent.min_x, tile.x),
                        max_x: larger(extent.max_x, tile.x),
                        min_y: smaller(extent.min_y, tile.y),
                        max_y: larger(extent.max_y, tile.y),
                    },
                ),
            }
        }
    }
}

proof fn lemma_group_extent(tiles: Seq<TileView>, group: GroupView, i: int)
    requires
        0 <= i < tiles.len(),
        group_of(tiles[i]) == group,
    ensures
        group_extent(tiles, group) matches Some(extent) && extent.min_x <= tiles[i].tile.x
            <= extent.max_x && extent.min_y <= tiles[i].tile.y <= extent.max_y,
    decreases tiles.len(),
{
    if i < tiles.len() - 1 {
        let front = tiles.drop_last();
        assert(front[i] == tiles[i]);
        lemma_group_extent(front, group, i);
    }
}

/// From how many places on a stretch of `size` tiles lies between `low` and `high`, if one starts
/// at `low` and goes on by `stride`.
pub open spec fn starts(low: u32, high: u32, size: u32, stride: u32) -> nat {
    if high - low + 1 < size {
        0
    } else {
        ((high - low + 1 - size) / (stride as int) + 1) as nat
    }
}

/// The place number `i`.
pub open spec fn start(low: u32, stride: u32, i: int) -> int {
    low + i * stride
}

proof fn lemma_starts(low: u32, high: u32, size: u32, stride: u32, i: int)
    requires
        low <= high,
        size >= 1,
        stride >= 1,
        i >= 0,
    ensures
        i < starts(low, high, size, stride) <==> start(low, stride, i) + size - 1 <= high,
        start(low, stride, i) >= low,
{
    let room = high - low + 1 - size;
    assert(i * stride >= 0) by (nonlinear_arith)
        requires
            i >= 0,
            stride >= 1,
    ;
    if room >= 0 {
        let s = stride as int;
        assert(i <= room / s <==> i * s <= room) by (nonlinear_arith)
            requires
                room >= 0,
                s >= 1,
                i >= 0,
        ;
    }
}

/// The names of the images in row `j` of a square.
pub open spec fn source_row(group: GroupView, x: int, y: int, size: nat) -> Seq<Seq<char>> {
    Seq::new(
        size,
        |i: int|
            tile_name(
                group.root,
                group.capture,
                Tile { x: (x + i) as u32, y: y as u32, z: group.z },
            ),
    )
}

/// The names of the images in the first `rows` rows of a square, row by row.
pub open spec fn source_rows(group: GroupView, x: int, y: int, size: nat, rows: nat) -> Seq<
    Seq<char>,
>
    decreases rows,
{
    if rows == 0 {
        Seq::empty()
    } else {
        source_rows(group, x, y, size, (rows - 1) as nat) + source_row(
            group,
            x,
            y + rows - 1,
            size,
        )
    }
}

/// A mosaic: a square of images of one group.
#[derive(Debug)]
pub struct Patch {
    pub root: ImageRoot,
    pub capture_id: String,
    /// The top left tile.
    pub tile: Tile,
    /// The number of tiles along one side.
    pub size: u32,
    /// The names of the images, row by row.
    pub source_tile_ids: Vec<String>,
}

/// What a mosaic is.
pub struct PatchView {
    pub root: ImageRoot,
    pub capture: Seq<char>,
    pub tile: Tile,
    pub size: u32,
    pub sources: Seq<Seq<char>>,
}

impl View for Patch {
    type V = PatchView;

    open spec fn view(&self) -> PatchView {
        PatchView {
            root: self.root,
            capture: self.capture_id@,
            tile: self.tile,
            size: self.size,
            sources: texts(self.source_tile_ids@),
        }
    }
}

impl PatchView {
    /// The name of the mosaic.
    pub open spec fn id(self) -> Seq<char> {
        patch_name(self.root, self.capture, self.tile, self.size)
    }

    /// The group whose images the mosaic is made of.
    pub open spec fn group(self) -> GroupView {
        GroupView { root: self.root, capture: self.capture, z: self.tile.z }
    }
}

impl Patch {
    /// The name of the mosaic.
    pub fn patch_id(&self) -> (id: String)
        requires
            self.size >= 1,
        ensures
            id@ == self@.id(),
    {
        patch_id(self.root, self.capture_id.as_str(), self.tile, self.size)
    }
}

/// The tile in the bottom right corner of a mosaic.
pub open spec fn last_tile(patch: PatchView) -> Tile {
    Tile {
        x: (patch.tile.x + patch.size - 1) as u32,
        y: (patch.tile.y + patch.size - 1) as u32,
        z: patch.tile.z,
    }
}

/// The tile in the bottom right corner of a mosaic.
pub fn patch_last_tile(patch: &Patch) -> (tile: Tile)
    requires
        patch.size >= 1,
        patch.tile.x + patch.size - 1 <= u32::MAX,
        patch.tile.y + patch.size - 1 <= u32::MAX,
    ensures
        tile == last_tile(patch@),
{
    Tile {
        x: patch.tile.x + (patch.size - 1),
        y: patch.tile.y + (patch.size - 1),
        z: patch.tile.z,
    }
}

/// The part of the globe that a mosaic covers, by those of the tiles in its top left and its bottom
/// right corner: its west and north are those of the first, its east and south those of the last.
pub open spec fn spanned(first: TileBounds, last: TileBounds) -> TileBounds {
    TileBounds {
        lat_min: last.lat_min,
        lon_min: first.lon_min,
        lat_max: first.lat_max,
        lon_max: last.lon_max,
    }
}

/// The part of the globe that a mosaic covers, by those of the tiles in its top left and its bottom
/// right corner.
pub fn patch_bounds(first: TileBounds, last: TileBounds) -> (bounds: TileBounds)
    ensures
        bounds == spanned(first, last),
{
    TileBounds {
        lat_min: last.lat_min,
        lon_min: first.lon_min,
        lat_max: first.lat_max,
        lon_max: last.lon_max,
    }
}

/// What a list of mosaics is.
pub open spec fn patch_views(patches: Seq<Patch>) -> Seq<PatchView> {
    patches.map_values(|patch: Patch| patch@)
}

/// The mosaic of a group from a place on.
pub open spec fn patch_at(group: GroupView, x: int, y: int, size: u32) -> PatchView {
    PatchView {
        root: group.root,
        capture: group.capture,
        tile: Tile { x: x as u32, y: y as u32, z: group.z },
        size,
        sources: source_rows(group, x, y, size as nat, size as nat),
    }
}

/// The mosaics of one row: those that are complete among the first `count` places.
pub open spec fn patch_row(
    tiles: Seq<TileView>,
    group: GroupView,
    size: u32,
    stride: u32,
    low: u32,
    y: int,
    count: nat,
) -> Seq<PatchView>
    decreases count,
{
    if count == 0 {
        Seq::empty()
    } else {
        let front = patch_row(tiles, group, size, stride, low, y, (count - 1) as nat);
        let x = start(low, stride, count - 1);
        if complete(tiles, group, x, y, size as int) {
            front.push(patch_at(group, x, y, size))
        } else {
            front
        }
    }
}

/// The mosaics of the first `rows` rows.
pub open spec fn patch_rows(
    tiles: Seq<TileView>,
    group: GroupView,
    size: u32,
    stride: u32,
    extent: Extent,
    rows: nat,
) -> Seq<PatchView>
    decreases rows,
{
    if rows == 0 {
        Seq::empty()
    } else {
        patch_rows(tiles, group, size, stride, extent, (rows - 1) as nat) + patch_row(
            tiles,
            group,
            size,
            stride,
            extent.min_x,
            start(extent.min_y, stride, rows - 1),
            starts(extent.min_x, extent.max_x, size, stride),
        )
    }
}

/// The mosaics of one size of a group.
pub open spec fn sized_patches(
    tiles: Seq<TileView>,
    group: GroupView,
    size: u32,
    stride: u32,
) -> Seq<PatchView> {
    match group_extent(tiles, group) {
        None => Seq::empty(),
        Some(extent) => if size == 0 {
            Seq::empty()
        } else {
            patch_rows(
                tiles,
                group,
                size,
                stride,
                extent,
                starts(extent.min_y, extent.max_y, size, stride),
            )
        },
    }
}

/// The mosaics of a group, size by size.
pub open spec fn group_patches(
    tiles: Seq<TileView>,
    group: GroupView,
    sizes: Seq<u32>,
    stride: u32,
) -> Seq<PatchView>
    decreases sizes.len(),
{
    if sizes.len() == 0 {
        Seq::empty()
    } else {
        group_patches(tiles, group, sizes.drop_last(), stride) + sized_patches(
            tiles,
            group,
            sizes.last(),
            stride,
        )
    }
}

/// The mosaics of some groups, group by group.
pub open spec fn patches_of_groups(
    tiles: Seq<TileView>,
    groups: Seq<GroupView>,
    sizes: Seq<u32>,
    stride: u32,
) -> Seq<PatchView>
    decreases groups.len(),
{
    if groups.len() == 0 {
        Seq::empty()
    } else {
        patches_of_groups(tiles, groups.drop_last(), sizes, stride) + group_patches(
            tiles,
            groups.last(),
            sizes,
            stride,
        )
    }
}

/// The mosaics of a dataset: of each group in order, of each size, row by row, every complete
/// square that starts a multiple of the stride away from the first row and the first column.
pub open spec fn dataset_patches(tiles: Seq<TileView>, sizes: Seq<u32>, stride: u32) -> Seq<
    PatchView,
> {
    patches_of_groups(tiles, tile_groups(tiles), sizes, stride)
}

/// Both coordinates of a tile in one number.
spec fn packed(x: int, y: int) -> int {
    x * 0x1_0000_0000 + y
}

fn pack(x: u32, y: u32) -> (key: u64)
    ensures
        key == packed(x as int, y as int),
{
    x as u64 * 0x1_0000_0000 + y as u64
}

/// The set holds the coordinates of the images of a group.
spec fn surveyed(present: Set<u64>, tiles: Seq<TileView>, group: GroupView) -> bool {
    forall|x: u32, y: u32|
        present.contains(packed(x as int, y as int) as u64) <==> #[trigger] has_tile(
            tiles,
            group,
            x as int,
            y as int,
        )
}

fn in_group(tile: &TileRecord, group: &GroupKey) -> (answer: bool)
    ensures
        answer == (group_of(tile@) == group@),
{
    tile.root == group.root && tile.tile.z == group.z && same_text(
        tile.capture_id.as_str(),
        group.capture_id.as_str(),
    )
}

fn survey_group(tiles: &[TileRecord], group: &GroupKey) -> (survey: (
    Option<Extent>,
    HashSet<u64>,
))
    ensures
        survey.0 == group_extent(tile_views(tiles@), group@),
        surveyed(survey.1@, tile_views(tiles@), group@),
{
    broadcast use vstd::std_specs::hash::group_hash_axioms;

    let ghost views = tile_views(tiles@);
    let mut extent: Option<Extent> = None;
    let mut present: HashSet<u64> = HashSet::new();
    let mut i: usize = 0;
    while i < tiles.len()
        invariant
            0 <= i <= tiles@.len(),
            views == tile_views(tiles@),
            extent == group_extent(views.take(i as int), group@),
            surveyed(present@, views.take(i as int), group@),
        decreases tiles@.len() - i,
    {
        let ghost front = views.take(i as int);
        let ghost next = views.take(i + 1);
        let ghost before = present@;
        assert(next.drop_last() == front);
        assert(views[i as int] == tiles@[i as int]@);
        let matches = in_group(&tiles[i], group);
        if matches {
            let tile = tiles[i].tile;
            extent = match extent {
                None => Some(
                    Extent { min_x: tile.x, max_x: tile.x, min_y: tile.y, max_y: tile.y },
                ),
                Some(e) => Some(
                    Extent {
                        min_x: if e.min_x <= tile.x {
                            e.min_x
                        } else {
                            tile.x
                        },
                        max_x: if e.max_x <= tile.x {
                            tile.x
                        } else {
                            e.max_x
                        },
                        min_y: if e.min_y <= tile.y {
                            e.min_y
                        } else {
                            tile.y
                        },
                        max_y: if e.max_y <= tile.y {
                            tile.y
                        } else {
                            e.max_y
                        },
                    },
                ),
            };
            present.insert(pack(tile.x, tile.y));
        }
        proof {
            assert forall|x: u32, y: u32|
                present@.contains(packed(x as int, y as int) as u64) <==> #[trigger] has_tile(
                    next,
                    group@,
                    x as int,
                    y as int,
                ) by {
                let old_answer = has_tile(front, group@, x as int, y as int);
                if old_answer {
                    let k = choose|k: int|
                        0 <= k < front.len() && group_of(#[trigger] front[k]) == group@
                            && front[k].tile.x == x && front[k].tile.y == y;
                    assert(next[k] == front[k]);
                }
                if has_tile(next, group@, x as int, y as int) && !old_answer {
                    let k = choose|k: int|
                        0 <= k < next.len() && group_of(#[trigger] next[k]) == group@
                            && next[k].tile.x == x && next[k].tile.y == y;
                    if k < i {
                        assert(front[k] == next[k]);
                    }
                    assert(k == i);
                }
                if matches {
                    let tile = tiles@[i as int].tile;
                    assert(next[i as int] == views[i as int]);
                    assert(packed(x as int, y as int) == packed(tile.x as int, tile.y as int)
                        ==> x == tile.x && y == tile.y);
                }
            }
        }
        i = i + 1;
    }
    assert(views.take(i as int) == views);
    (extent, present)
}

/// The names of the images of a square, where all are there.
fn square_sources(
    present: &HashSet<u64>,
    group: &GroupKey,
    x: u32,
    y: u32,
    size: u32,
    Ghost(tiles): Ghost<Seq<TileView>>,
) -> (sources: Option<Vec<String>>)
    requires
        surveyed(present@, tiles, group@),
        size >= 1,
        x + size - 1 <= u32::MAX,
        y + size - 1 <= u32::MAX,
    ensures
        sources is Some <==> complete(tiles, group@, x as int, y as int, size as int),
        sources matches Some(ids) ==> texts(ids@) == source_rows(
            group@,
            x as int,
            y as int,
            size as nat,
            size as nat,
        ),
{
    broadcast use vstd::std_specs::hash::group_hash_axioms;

    let mut ids: Vec<String> = Vec::new();
    assert(texts(ids@) =~= Seq::<Seq<char>>::empty());
    let mut j: u32 = 0;
    while j < size
        invariant
            0 <= j <= size,
            size >= 1,
            x + size - 1 <= u32::MAX,
            y + size - 1 <= u32::MAX,
            surveyed(present@, tiles, group@),
            texts(ids@) == source_rows(group@, x as int, y as int, size as nat, j as nat),
            forall|u: int, v: int|
                x <= u < x + size && y <= v < y + j ==> #[trigger] has_tile(tiles, group@, u, v),
        decreases size - j,
    {
        let ghost done = texts(ids@);
        let ghost row = source_row(group@, x as int, y + j, size as nat);
        let mut i: u32 = 0;
        assert(done + row.take(0) =~= done);
        while i < size
            invariant
                0 <= i <= size,
                0 <= j < size,
                x + size - 1 <= u32::MAX,
                y + size - 1 <= u32::MAX,
                surveyed(present@, tiles, group@),
                row == source_row(group@, x as int, y + j, size as nat),
                texts(ids@) == done + row.take(i as int),
                forall|u: int, v: int|
                    x <= u < x + size && y <= v < y + j ==> #[trigger] has_tile(
                        tiles,
                        group@,
                        u,
                        v,
                    ),
                forall|u: int|
                    x <= u < x + i ==> #[trigger] has_tile(tiles, group@, u, y + j),
            decreases size - i,
        {
            let u: u32 = x + i;
            let v: u32 = y + j;
            assert(surveyed(present@, tiles, group@) ==> (present@.contains(
                packed(u as int, v as int) as u64,
            ) <==> has_tile(tiles, group@, u as int, v as int)));
            if !present.contains(&pack(u, v)) {
                assert(!has_tile(tiles, group@, u as int, v as int));
                return None;
            }
            let id = tile_id(group.root, group.capture_id.as_str(), Tile { x: u, y: v, z: group.z });
            let ghost before = ids@;
            ids.push(id);
            assert(texts(ids@) =~= texts(before).push(id@));
            assert(row[i as int] == id@);
            assert(row.take(i + 1) =~= row.take(i as int).push(id@));
            assert(texts(ids@) =~= done + row.take(i + 1));
            i = i + 1;
        }
        assert(row.take(i as int) =~= row);
        assert forall|u: int, v: int| x <= u < x + size && y <= v < y + j + 1 implies #[trigger] has_tile(
            tiles,
            group@,
            u,
            v,
        ) by {
            if v == y + j {
                assert(has_tile(tiles, group@, u, y + j));
            }
        }
        j = j + 1;
    }
    Some(ids)
}

/// Appends the mosaics of one size of a group.
fn push_sized_patches(
    patches: &mut Vec<Patch>,
    present: &HashSet<u64>,
    extent: Extent,
    group: &GroupKey,
    size: u32,
    stride: u32,
    Ghost(tiles): Ghost<Seq<TileView>>,
)
    requires
        stride >= 1,
        extent.min_x <= extent.max_x,
        extent.min_y <= extent.max_y,
        group_extent(tiles, group@) == Some(extent),
        surveyed(present@, tiles, group@),
    ensures
        patch_views(final(patches)@) == patch_views(old(patches)@) + sized_patches(
            tiles,
            group@,
            size,
            stride,
        ),
{
    let ghost before = patch_views(patches@);
    if size == 0 {
        assert(before + Seq::<PatchView>::empty() =~= before);
        return ;
    }
    let ghost columns = starts(extent.min_x, extent.max_x, size, stride);
    let mut j: u64 = 0;
    let mut y: u64 = extent.min_y as u64;
    assert(before + patch_rows(tiles, group@, size, stride, extent, 0) =~= before);
    proof {
        lemma_starts(extent.min_y, extent.max_y, size, stride, 0);
    }
    while y + size as u64 - 1 <= extent.max_y as u64
        invariant
            stride >= 1,
            size >= 1,
            extent.min_x <= extent.max_x,
            extent.min_y <= extent.max_y,
            surveyed(present@, tiles, group@),
            columns == starts(extent.min_x, extent.max_x, size, stride),
            y == start(extent.min_y, stride, j as int),
            j <= y <= u32::MAX + u32::MAX,
            j <= starts(extent.min_y, extent.max_y, size, stride),
            patch_views(patches@) == before + patch_rows(
                tiles,
                group@,
                size,
                stride,
                extent,
                j as nat,
            ),
        decreases u32::MAX + u32::MAX - y,
    {
        let ghost done = patch_views(patches@);
        let mut i: u64 = 0;
        let mut x: u64 = extent.min_x as u64;
        proof {
            lemma_starts(extent.min_y, extent.max_y, size, stride, j as int);
            lemma_starts(extent.min_x, extent.max_x, size, stride, 0);
        }
        assert(done + patch_row(tiles, group@, size, stride, extent.min_x, y as int, 0) =~= done);
        while x + size as u64 - 1 <= extent.max_x as u64
            invariant
                stride >= 1,
                size >= 1,
                extent.min_x <= extent.max_x,
                y + size - 1 <= extent.max_y,
                surveyed(present@, tiles, group@),
                x == start(extent.min_x, stride, i as int),
                i <= x <= u32::MAX + u32::MAX,
                i <= starts(extent.min_x, extent.max_x, size, stride),
                patch_views(patches@) == done + patch_row(
                    tiles,
                    group@,
                    size,
                    stride,
                    extent.min_x,
                    y as int,
                    i as nat,
                ),
            decreases u32::MAX + u32::MAX - x,
        {
            proof {
                lemma_starts(extent.min_x, extent.max_x, size, stride, i as int);
                lemma_starts(extent.min_x, extent.max_x, size, stride, i + 1);
                assert((i + 1) * stride == i * stride + stride) by (nonlinear_arith);
            }
            let ghost sofar = patches@;
            if let Some(source_tile_ids) = square_sources(
                present,
                group,
                x as u32,
                y as u32,
                size,
                Ghost(tiles),
            ) {
                let patch = Patch {
                    root: group.root,
                    capture_id: group.capture_id.clone(),
                    tile: Tile { x: x as u32, y: y as u32, z: group.z },
                    size,
                    source_tile_ids,
                };
                patches.push(patch);
                assert(patch_views(patches@) =~= patch_views(sofar).push(patch@));
                assert(patch@ == patch_at(group@, x as int, y as int, size));
            }
            assert(patch_views(patches@) =~= done + patch_row(
                tiles,
                group@,
                size,
                stride,
                extent.min_x,
                y as int,
                (i + 1) as nat,
            ));
            x = x + stride as u64;
            i = i + 1;
        }
        proof {
            lemma_starts(extent.min_x, extent.max_x, size, stride, i as int);
            lemma_starts(extent.min_y, extent.max_y, size, stride, j + 1);
            assert((j + 1) * stride == j * stride + stride) by (nonlinear_arith);
        }
        assert(i == columns);
        assert(patch_views(patches@) =~= before + patch_rows(
            tiles,
            group@,
            size,
            stride,
            extent,
            (j + 1) as nat,
        ));
        y = y + stride as u64;
        j = j + 1;
    }
    proof {
        lemma_starts(extent.min_y, extent.max_y, size, stride, j as int);
    }
}

/// Builds the mosaics of a dataset.
pub fn build_patches(tiles: &[TileRecord], sizes: &[u32], stride: u32) -> (patches: Vec<Patch>)
    requires
        stride >= 1,
    ensures
        patch_views(patches@) == dataset_patches(tile_views(tiles@), sizes@, stride),
{
    let ghost views = tile_views(tiles@);
    let groups = groups_of_tiles(tiles);
    let ghost keys = group_views(groups@);
    let mut patches: Vec<Patch> = Vec::new();
    assert(patch_views(patches@) =~= Seq::<PatchView>::empty());
    let mut g: usize = 0;
    while g < groups.len()
        invariant
            0 <= g <= groups@.len(),
            stride >= 1,
            views == tile_views(tiles@),
            keys == group_views(groups@),
            patch_views(patches@) == patches_of_groups(views, keys.take(g as int), sizes@, stride),
        decreases groups@.len() - g,
    {
        let group = &groups[g];
        let (found, present) = survey_group(tiles, group);
        let ghost done = patch_views(patches@);
        assert(keys.take(g + 1).drop_last() == keys.take(g as int));
        assert(keys[g as int] == group@);
        let mut k: usize = 0;
        assert(done + group_patches(views, group@, sizes@.take(0), stride) =~= done);
        while k < sizes.len()
            invariant
                0 <= k <= sizes@.len(),
                stride >= 1,
                found == group_extent(views, group@),
                surveyed(present@, views, group@),
                patch_views(patches@) == done + group_patches(
                    views,
                    group@,
                    sizes@.take(k as int),
                    stride,
                ),
            decreases sizes@.len() - k,
        {
            let ghost sofar = patch_views(patches@);
            assert(sizes@.take(k + 1).drop_last() == sizes@.take(k as int));
            if let Some(extent) = found {
                proof {
                    lemma_extent_ordered(views, group@);
                }
                push_sized_patches(
                    &mut patches,
                    &present,
                    extent,
                    group,
                    sizes[k],
                    stride,
                    Ghost(views),
                );
            } else {
                assert(sofar + sized_patches(views, group@, sizes@[k as int], stride) =~= sofar);
            }
            assert(patch_views(patches@) =~= done + group_patches(
                views,
                group@,
                sizes@.take(k + 1),
                stride,
            ));
            k = k + 1;
        }
        assert(sizes@.take(k as int) == sizes@);
        g = g + 1;
    }
    assert(keys.take(g as int) == keys);
    patches
}

proof fn lemma_extent_ordered(tiles: Seq<TileView>, group: GroupView)
    ensures
        group_extent(tiles, group) matches Some(extent) ==> extent.min_x <= extent.max_x
            && extent.min_y <= extent.max_y,
    decreases tiles.len(),
{
    if tiles.len() > 0 {
        lemma_extent_ordered(tiles.drop_last(), group);
    }
}

/// A mosaic that stands for a complete square of images of one group.
pub open spec fn sound_patch(tiles: Seq<TileView>, patch: PatchView) -> bool {
    &&& patch.size >= 1
    &&& patch.tile.x + patch.size - 1 <= u32::MAX
    &&& patch.tile.y + patch.size - 1 <= u32::MAX
    &&& complete(
        tiles,
        patch.group(),
        patch.tile.x as int,
        patch.tile.y as int,
        patch.size as int,
    )
    &&& patch == patch_at(patch.group(), patch.tile.x as int, patch.tile.y as int, patch.size)
}

/// A coordinate lies a multiple of the stride away from the lowest one.
pub open spec fn steps_from(low: u32, stride: u32, at: u32) -> bool {
    at >= low && (at - low) % (stride as int) == 0
}

/// A mosaic starts a multiple of the stride away from the first column and the first row of its
/// group.
pub open spec fn on_stride(tiles: Seq<TileView>, patch: PatchView, stride: u32) -> bool {
    group_extent(tiles, patch.group()) matches Some(extent) && steps_from(
        extent.min_x,
        stride,
        patch.tile.x,
    ) && steps_from(extent.min_y, stride, patch.tile.y)
}

proof fn lemma_steps_from(low: u32, stride: u32, i: int)
    requires
        stride >= 1,
        i >= 0,
        start(low, stride, i) <= u32::MAX,
    ensures
        steps_from(low, stride, start(low, stride, i) as u32),
{
    let s = stride as int;
    assert(i * s >= 0) by (nonlinear_arith)
        requires
            i >= 0,
            s >= 1,
    ;
    vstd::arithmetic::div_mod::lemma_mod_multiples_basic(i, s);
}

/// The mosaics of a row stand for complete squares of one size, further and further to the right.
spec fn row_sound(
    row: Seq<PatchView>,
    tiles: Seq<TileView>,
    group: GroupView,
    size: u32,
    y: u32,
    low: u32,
    stride: u32,
    limit: int,
) -> bool {
    &&& forall|k: int|
        0 <= k < row.len() ==> {
            let patch = #[trigger] row[k];
            &&& sound_patch(tiles, patch)
            &&& patch.group() == group
            &&& patch.size == size
            &&& patch.tile.y == y
            &&& steps_from(low, stride, patch.tile.x)
            &&& patch.tile.x < limit
        }
    &&& forall|k: int, l: int|
        0 <= k < l < row.len() ==> (#[trigger] row[k]).tile.x < (#[trigger] row[l]).tile.x
}

proof fn lemma_row_sound(
    tiles: Seq<TileView>,
    group: GroupView,
    size: u32,
    stride: u32,
    extent: Extent,
    y: u32,
    count: nat,
)
    requires
        size >= 1,
        stride >= 1,
        extent.min_x <= extent.max_x,
        y + size - 1 <= u32::MAX,
        count <= starts(extent.min_x, extent.max_x, size, stride),
    ensures
        row_sound(
            patch_row(tiles, group, size, stride, extent.min_x, y as int, count),
            tiles,
            group,
            size,
            y,
            extent.min_x,
            stride,
            start(extent.min_x, stride, count as int),
        ),
    decreases count,
{
    if count > 0 {
        let less = (count - 1) as nat;
        lemma_row_sound(tiles, group, size, stride, extent, y, less);
        lemma_starts(extent.min_x, extent.max_x, size, stride, count - 1);
        lemma_steps_from(extent.min_x, stride, count - 1);
        assert(start(extent.min_x, stride, count - 1) < start(extent.min_x, stride, count as int))
            by (nonlinear_arith)
            requires
                stride >= 1,
        ;
        let front = patch_row(tiles, group, size, stride, extent.min_x, y as int, less);
        let whole = patch_row(tiles, group, size, stride, extent.min_x, y as int, count);
        assert forall|k: int| 0 <= k < whole.len() implies {
            let patch = #[trigger] whole[k];
            &&& sound_patch(tiles, patch)
            &&& patch.group() == group
            &&& patch.size == size
            &&& patch.tile.y == y
            &&& steps_from(extent.min_x, stride, patch.tile.x)
            &&& patch.tile.x < start(extent.min_x, stride, count as int)
        } by {
            if k < front.len() {
                assert(whole[k] == front[k]);
            }
        }
        assert forall|k: int, l: int| 0 <= k < l < whole.len() implies (#[trigger] whole[k]).tile.x
            < (#[trigger] whole[l]).tile.x by {
            assert(whole[k] == front[k]);
            if l < front.len() {
                assert(whole[l] == front[l]);
            }
        }
    }
}

/// Mosaics that differ in more than their images' names.
spec fn apart(a: PatchView, b: PatchView) -> bool {
    a.group() != b.group() || a.size != b.size || a.tile != b.tile
}

/// No two of the mosaics are the same.
pub open spec fn patches_distinct(patches: Seq<PatchView>) -> bool {
    forall|i: int, j: int|
        0 <= i < j < patches.len() ==> (#[trigger] patches[i]).id() != (#[trigger] patches[j]).id()
}

spec fn all_apart(patches: Seq<PatchView>) -> bool {
    forall|i: int, j: int|
        0 <= i < j < patches.len() ==> apart(#[trigger] patches[i], #[trigger] patches[j])
}

proof fn lemma_apart_joined(a: Seq<PatchView>, b: Seq<PatchView>)
    requires
        all_apart(a),
        all_apart(b),
        forall|i: int, j: int|
            0 <= i < a.len() && 0 <= j < b.len() ==> apart(#[trigger] a[i], #[trigger] b[j]),
    ensures
        all_apart(a + b),
{
    let whole = a + b;
    assert forall|i: int, j: int| 0 <= i < j < whole.len() implies apart(
        #[trigger] whole[i],
        #[trigger] whole[j],
    ) by {
        if j < a.len() {
            assert(whole[i] == a[i] && whole[j] == a[j]);
        } else if i >= a.len() {
            assert(whole[i] == b[i - a.len()] && whole[j] == b[j - a.len()]);
        } else {
            assert(whole[i] == a[i] && whole[j] == b[j - a.len()]);
        }
    }
}

proof fn lemma_rows_sound(
    tiles: Seq<TileView>,
    group: GroupView,
    size: u32,
    stride: u32,
    extent: Extent,
    rows: nat,
)
    requires
        size >= 1,
        stride >= 1,
        extent.min_x <= extent.max_x,
        extent.min_y <= extent.max_y,
        rows <= starts(extent.min_y, extent.max_y, size, stride),
    ensures
        forall|k: int|
            #![trigger patch_rows(tiles, group, size, stride, extent, rows)[k]]
            0 <= k < patch_rows(tiles, group, size, stride, extent, rows).len() ==> {
                let patch = patch_rows(tiles, group, size, stride, extent, rows)[k];
                &&& sound_patch(tiles, patch)
                &&& patch.group() == group
                &&& patch.size == size
                &&& steps_from(extent.min_x, stride, patch.tile.x)
                &&& steps_from(extent.min_y, stride, patch.tile.y)
                &&& patch.tile.y < start(extent.min_y, stride, rows as int)
            },
        all_apart(patch_rows(tiles, group, size, stride, extent, rows)),
    decreases rows,
{
    if rows > 0 {
        let less = (rows - 1) as nat;
        lemma_rows_sound(tiles, group, size, stride, extent, less);
        lemma_starts(extent.min_y, extent.max_y, size, stride, rows - 1);
        lemma_steps_from(extent.min_y, stride, rows - 1);
        let y = start(extent.min_y, stride, rows - 1) as u32;
        let count = starts(extent.min_x, extent.max_x, size, stride);
        lemma_row_sound(tiles, group, size, stride, extent, y, count);
        assert(start(extent.min_y, stride, rows - 1) < start(extent.min_y, stride, rows as int))
            by (nonlinear_arith)
            requires
                stride >= 1,
        ;
        let front = patch_rows(tiles, group, size, stride, extent, less);
        let row = patch_row(tiles, group, size, stride, extent.min_x, y as int, count);
        let whole = patch_rows(tiles, group, size, stride, extent, rows);
        assert(whole == front + row);
        lemma_apart_joined(front, row);
        assert forall|k: int| 0 <= k < whole.len() implies {
            let patch = #[trigger] whole[k];
            &&& sound_patch(tiles, patch)
            &&& patch.group() == group
            &&& patch.size == size
            &&& steps_from(extent.min_x, stride, patch.tile.x)
            &&& steps_from(extent.min_y, stride, patch.tile.y)
            &&& patch.tile.y < start(extent.min_y, stride, rows as int)
        } by {
            if k < front.len() {
                assert(whole[k] == front[k]);
            } else {
                assert(whole[k] == row[k - front.len()]);
            }
        }
    }
}

proof fn lemma_sized_sound(tiles: Seq<TileView>, group: GroupView, size: u32, stride: u32)
    requires
        stride >= 1,
    ensures
        forall|k: int|
            #![trigger sized_patches(tiles, group, size, stride)[k]]
            0 <= k < sized_patches(tiles, group, size, stride).len() ==> {
                let patch = sized_patches(tiles, group, size, stride)[k];
                &&& sound_patch(tiles, patch)
                &&& patch.group() == group
                &&& patch.size == size
                &&& on_stride(tiles, patch, stride)
            },
        all_apart(sized_patches(tiles, group, size, stride)),
{
    lemma_extent_ordered(tiles, group);
    if let Some(extent) = group_extent(tiles, group) {
        if size >= 1 {
            lemma_rows_sound(
                tiles,
                group,
                size,
                stride,
                extent,
                starts(extent.min_y, extent.max_y, size, stride),
            );
        }
    }
}

proof fn lemma_group_sound(tiles: Seq<TileView>, group: GroupView, sizes: Seq<u32>, stride: u32)
    requires
        stride >= 1,
    ensures
        forall|k: int|
            #![trigger group_patches(tiles, group, sizes, stride)[k]]
            0 <= k < group_patches(tiles, group, sizes, stride).len() ==> {
                let patch = group_patches(tiles, group, sizes, stride)[k];
                &&& sound_patch(tiles, patch)
                &&& patch.group() == group
                &&& sizes.contains(patch.size)
                &&& on_stride(tiles, patch, stride)
            },
        sizes.no_duplicates() ==> all_apart(group_patches(tiles, group, sizes, stride)),
    decreases sizes.len(),
{
    if sizes.len() > 0 {
        let less = sizes.drop_last();
        lemma_group_sound(tiles, group, less, stride);
        lemma_sized_sound(tiles, group, sizes.last(), stride);
        let front = group_patches(tiles, group, less, stride);
        let back = sized_patches(tiles, group, sizes.last(), stride);
        let whole = group_patches(tiles, group, sizes, stride);
        assert(whole == front + back);
        assert(sizes[sizes.len() - 1] == sizes.last());
        assert forall|n: u32| less.contains(n) implies sizes.contains(n) by {
            let i = choose|i: int| 0 <= i < less.len() && less[i] == n;
            assert(sizes[i] == n);
        }
        if sizes.no_duplicates() {
            assert forall|n: u32| less.contains(n) implies n != sizes.last() by {
                let i = choose|i: int| 0 <= i < less.len() && less[i] == n;
                assert(sizes[i] == n);
            }
            lemma_apart_joined(front, back);
        }
        assert forall|k: int| 0 <= k < whole.len() implies {
            let patch = #[trigger] whole[k];
            &&& sound_patch(tiles, patch)
            &&& patch.group() == group
            &&& sizes.contains(patch.size)
            &&& on_stride(tiles, patch, stride)
        } by {
            if k < front.len() {
                assert(whole[k] == front[k]);
            } else {
                assert(whole[k] == back[k - front.len()]);
            }
        }
    }
}

proof fn lemma_groups_sound(
    tiles: Seq<TileView>,
    groups: Seq<GroupView>,
    sizes: Seq<u32>,
    stride: u32,
)
    requires
        stride >= 1,
        groups_rising(groups),
    ensures
        forall|k: int|
            #![trigger patches_of_groups(tiles, groups, sizes, stride)[k]]
            0 <= k < patches_of_groups(tiles, groups, sizes, stride).len() ==> {
                let patch = patches_of_groups(tiles, groups, sizes, stride)[k];
                &&& sound_patch(tiles, patch)
                &&& groups.contains(patch.group())
                &&& sizes.contains(patch.size)
                &&& on_stride(tiles, patch, stride)
            },
        sizes.no_duplicates() ==> all_apart(patches_of_groups(tiles, groups, sizes, stride)),
    decreases groups.len(),
{
    if groups.len() > 0 {
        let less = groups.drop_last();
        lemma_groups_sound(tiles, less, sizes, stride);
        lemma_group_sound(tiles, groups.last(), sizes, stride);
        let front = patches_of_groups(tiles, less, sizes, stride);
        let back = group_patches(tiles, groups.last(), sizes, stride);
        let whole = patches_of_groups(tiles, groups, sizes, stride);
        assert(whole == front + back);
        assert(groups[groups.len() - 1] == groups.last());
        assert forall|g: GroupView| less.contains(g) implies groups.contains(g) && g
            != groups.last() by {
            let i = choose|i: int| 0 <= i < less.len() && less[i] == g;
            assert(groups[i] == g);
            assert(group_before(groups[i], groups[groups.len() - 1]));
            lemma_group_order(groups[i], groups[groups.len() - 1]);
        }
        if sizes.no_duplicates() {
            lemma_apart_joined(front, back);
        }
        assert forall|k: int| 0 <= k < whole.len() implies {
            let patch = #[trigger] whole[k];
            &&& sound_patch(tiles, patch)
            &&& groups.contains(patch.group())
            &&& sizes.contains(patch.size)
            &&& on_stride(tiles, patch, stride)
        } by {
            if k < front.len() {
                assert(whole[k] == front[k]);
            } else {
                assert(whole[k] == back[k - front.len()]);
            }
        }
    }
}

/// Every mosaic stands for a complete square of images, of one of the sizes, and starts a multiple
/// of the stride away from the first column and the first row of its group. The tiles in its
/// opposite corners are those of images.
pub proof fn law_patches_are_sound(tiles: Seq<TileView>, sizes: Seq<u32>, stride: u32, k: int)
    requires
        stride >= 1,
        0 <= k < dataset_patches(tiles, sizes, stride).len(),
    ensures
        sound_patch(tiles, dataset_patches(tiles, sizes, stride)[k]),
        sizes.contains(dataset_patches(tiles, sizes, stride)[k].size),
        on_stride(tiles, dataset_patches(tiles, sizes, stride)[k], stride),
        ({
            let patch = dataset_patches(tiles, sizes, stride)[k];
            let last = last_tile(patch);
            &&& has_tile(tiles, patch.group(), patch.tile.x as int, patch.tile.y as int)
            &&& has_tile(tiles, patch.group(), last.x as int, last.y as int)
        }),
{
    law_tile_groups(tiles);
    lemma_groups_sound(tiles, tile_groups(tiles), sizes, stride);
    let patch = dataset_patches(tiles, sizes, stride)[k];
    assert(sound_patch(tiles, patch));
    assert(has_tile(tiles, patch.group(), patch.tile.x as int, patch.tile.y as int));
    let last = last_tile(patch);
    assert(has_tile(tiles, patch.group(), last.x as int, last.y as int));
}

/// Where no size is given twice, no two mosaics have the same name.
pub proof fn law_patch_ids_distinct(tiles: Seq<TileView>, sizes: Seq<u32>, stride: u32)
    requires
        stride >= 1,
        sizes.no_duplicates(),
    ensures
        patches_distinct(dataset_patches(tiles, sizes, stride)),
{
    law_tile_groups(tiles);
    lemma_groups_sound(tiles, tile_groups(tiles), sizes, stride);
    let patches = dataset_patches(tiles, sizes, stride);
    assert forall|i: int, j: int| 0 <= i < j < patches.len() implies (#[trigger] patches[i]).id()
        != (#[trigger] patches[j]).id() by {
        let a = patches[i];
        let b = patches[j];
        assert(sound_patch(tiles, a) && sound_patch(tiles, b));
        assert(apart(a, b));
        if a.id() == b.id() {
            law_patch_names_distinct(
                a.root,
                a.capture,
                a.tile,
                a.size,
                b.root,
                b.capture,
                b.tile,
                b.size,
            );
        }
    }
}

proof fn lemma_source_rows(group: GroupView, x: int, y: int, size: nat, rows: nat, k: int)
    requires
        0 <= k < source_rows(group, x, y, size, rows).len(),
    ensures
        exists|u: int, v: int|
            x <= u < x + size && y <= v < y + rows && source_rows(group, x, y, size, rows)[k]
                == #[trigger] tile_name(
                group.root,
                group.capture,
                Tile { x: u as u32, y: v as u32, z: group.z },
            ),
    decreases rows,
{
    let front = source_rows(group, x, y, size, (rows - 1) as nat);
    let row = source_row(group, x, y + rows - 1, size);
    let whole = source_rows(group, x, y, size, rows);
    assert(whole == front + row);
    if k < front.len() {
        lemma_source_rows(group, x, y, size, (rows - 1) as nat, k);
        assert(whole[k] == front[k]);
    } else {
        let i = k - front.len();
        assert(whole[k] == row[i]);
        assert(whole[k] == tile_name(
            group.root,
            group.capture,
            Tile { x: (x + i) as u32, y: (y + rows - 1) as u32, z: group.z },
        ));
    }
}

proof fn lemma_source_count(group: GroupView, x: int, y: int, size: nat, rows: nat)
    ensures
        source_rows(group, x, y, size, rows).len() == size * rows,
    decreases rows,
{
    if rows > 0 {
        lemma_source_count(group, x, y, size, (rows - 1) as nat);
        assert(size * rows == size * (rows - 1) + size) by (nonlinear_arith)
            requires
                rows > 0,
        ;
    } else {
        assert(size * rows == 0) by (nonlinear_arith)
            requires
                rows == 0,
        ;
    }
}

/// One of the images has the name.
pub open spec fn names_tile(tiles: Seq<TileView>, name: Seq<char>) -> bool {
    exists|i: int| 0 <= i < tiles.len() && (#[trigger] tiles[i]).id() == name
}

/// A mosaic has as many images as its square has tiles, and each of them is one of the images of
/// the dataset.
pub proof fn law_patch_sources_exist(tiles: Seq<TileView>, patch: PatchView)
    requires
        sound_patch(tiles, patch),
    ensures
        patch.sources.len() == patch.size * patch.size,
        forall|k: int|
            0 <= k < patch.sources.len() ==> names_tile(tiles, #[trigger] patch.sources[k]),
{
    let group = patch.group();
    let x = patch.tile.x as int;
    let y = patch.tile.y as int;
    let size = patch.size as nat;
    lemma_source_count(group, x, y, size, size);
    assert forall|k: int| 0 <= k < patch.sources.len() implies names_tile(
        tiles,
        #[trigger] patch.sources[k],
    ) by {
        lemma_source_rows(group, x, y, size, size, k);
        let (u, v) = choose|u: int, v: int|
            x <= u < x + size && y <= v < y + size && patch.sources[k] == #[trigger] tile_name(
                group.root,
                group.capture,
                Tile { x: u as u32, y: v as u32, z: group.z },
            );
        assert(has_tile(tiles, group, u, v));
        let i = choose|i: int|
            0 <= i < tiles.len() && group_of(#[trigger] tiles[i]) == group && tiles[i].tile.x == u
                && tiles[i].tile.y == v;
        assert(tiles[i].tile == (Tile { x: u as u32, y: v as u32, z: group.z }));
        assert(patch.sources[k] == tiles[i].id());
    }
}

proof fn lemma_row_finds(
    tiles: Seq<TileView>,
    group: GroupView,
    size: u32,
    stride: u32,
    low: u32,
    y: int,
    count: nat,
    i: int,
)
    requires
        0 <= i < count,
        complete(tiles, group, start(low, stride, i), y, size as int),
    ensures
        patch_row(tiles, group, size, stride, low, y, count).contains(
            patch_at(group, start(low, stride, i), y, size),
        ),
    decreases count,
{
    let wanted = patch_at(group, start(low, stride, i), y, size);
    let front = patch_row(tiles, group, size, stride, low, y, (count - 1) as nat);
    let whole = patch_row(tiles, group, size, stride, low, y, count);
    if i < count - 1 {
        lemma_row_finds(tiles, group, size, stride, low, y, (count - 1) as nat, i);
        let k = choose|k: int| 0 <= k < front.len() && front[k] == wanted;
        assert(whole[k] == wanted);
    } else {
        assert(whole == front.push(wanted));
        assert(whole[front.len() as int] == wanted);
    }
}

proof fn lemma_rows_find(
    tiles: Seq<TileView>,
    group: GroupView,
    size: u32,
    stride: u32,
    extent: Extent,
    rows: nat,
    i: int,
    j: int,
)
    requires
        0 <= j < rows,
        0 <= i < starts(extent.min_x, extent.max_x, size, stride),
        complete(
            tiles,
            group,
            start(extent.min_x, stride, i),
            start(extent.min_y, stride, j),
            size as int,
        ),
    ensures
        patch_rows(tiles, group, size, stride, extent, rows).contains(
            patch_at(
                group,
                start(extent.min_x, stride, i),
                start(extent.min_y, stride, j),
                size,
            ),
        ),
    decreases rows,
{
    let x = start(extent.min_x, stride, i);
    let y = start(extent.min_y, stride, j);
    let wanted = patch_at(group, x, y, size);
    let front = patch_rows(tiles, group, size, stride, extent, (rows - 1) as nat);
    let whole = patch_rows(tiles, group, size, stride, extent, rows);
    let count = starts(extent.min_x, extent.max_x, size, stride);
    let row = patch_row(
        tiles,
        group,
        size,
        stride,
        extent.min_x,
        start(extent.min_y, stride, rows - 1),
        count,
    );
    assert(whole == front + row);
    if j < rows - 1 {
        lemma_rows_find(tiles, group, size, stride, extent, (rows - 1) as nat, i, j);
        let k = choose|k: int| 0 <= k < front.len() && front[k] == wanted;
        assert(whole[k] == wanted);
    } else {
        lemma_row_finds(tiles, group, size, stride, extent.min_x, y, count, i);
        let k = choose|k: int| 0 <= k < row.len() && row[k] == wanted;
        assert(whole[front.len() + k] == wanted);
    }
}

proof fn lemma_group_finds(
    tiles: Seq<TileView>,
    group: GroupView,
    sizes: Seq<u32>,
    stride: u32,
    s: int,
    patch: PatchView,
)
    requires
        0 <= s < sizes.len(),
        sized_patches(tiles, group, sizes[s], stride).contains(patch),
    ensures
        group_patches(tiles, group, sizes, stride).contains(patch),
    decreases sizes.len(),
{
    let front = group_patches(tiles, group, sizes.drop_last(), stride);
    let back = sized_patches(tiles, group, sizes.last(), stride);
    let whole = group_patches(tiles, group, sizes, stride);
    assert(whole == front + back);
    if s < sizes.len() - 1 {
        assert(sizes.drop_last()[s] == sizes[s]);
        lemma_group_finds(tiles, group, sizes.drop_last(), stride, s, patch);
        let k = choose|k: int| 0 <= k < front.len() && front[k] == patch;
        assert(whole[k] == patch);
    } else {
        let k = choose|k: int| 0 <= k < back.len() && back[k] == patch;
        assert(whole[front.len() + k] == patch);
    }
}

proof fn lemma_groups_find(
    tiles: Seq<TileView>,
    groups: Seq<GroupView>,
    sizes: Seq<u32>,
    stride: u32,
    g: int,
    patch: PatchView,
)
    requires
        0 <= g < groups.len(),
        group_patches(tiles, groups[g], sizes, stride).contains(patch),
    ensures
        patches_of_groups(tiles, groups, sizes, stride).contains(patch),
    decreases groups.len(),
{
    let front = patches_of_groups(tiles, groups.drop_last(), sizes, stride);
    let back = group_patches(tiles, groups.last(), sizes, stride);
    let whole = patches_of_groups(tiles, groups, sizes, stride);
    assert(whole == front + back);
    if g < groups.len() - 1 {
        assert(groups.drop_last()[g] == groups[g]);
        lemma_groups_find(tiles, groups.drop_last(), sizes, stride, g, patch);
        let k = choose|k: int| 0 <= k < front.len() && front[k] == patch;
        assert(whole[k] == patch);
    } else {
        let k = choose|k: int| 0 <= k < back.len() && back[k] == patch;
        assert(whole[front.len() + k] == patch);
    }
}

/// Every complete square of one of the sizes that starts a multiple of the stride away from the
/// first row and the first column of its group is a mosaic of the dataset.
pub proof fn law_complete_squares_are_patches(
    tiles: Seq<TileView>,
    sizes: Seq<u32>,
    stride: u32,
    group: GroupView,
    size: u32,
    i: int,
    j: int,
)
    requires
        stride >= 1,
        size >= 1,
        sizes.contains(size),
        i >= 0,
        j >= 0,
        group_extent(tiles, group) matches Some(extent) && complete(
            tiles,
            group,
            start(extent.min_x, stride, i),
            start(extent.min_y, stride, j),
            size as int,
        ),
    ensures
        dataset_patches(tiles, sizes, stride).contains(
            patch_at(
                group,
                start(group_extent(tiles, group)->0.min_x, stride, i),
                start(group_extent(tiles, group)->0.min_y, stride, j),
                size,
            ),
        ),
{
    let extent = group_extent(tiles, group)->0;
    let x = start(extent.min_x, stride, i);
    let y = start(extent.min_y, stride, j);
    lemma_extent_ordered(tiles, group);
    lemma_starts(extent.min_x, extent.max_x, size, stride, i);
    lemma_starts(extent.min_y, extent.max_y, size, stride, j);
    assert(has_tile(tiles, group, x + size - 1, y + size - 1));
    let k = choose|k: int|
        0 <= k < tiles.len() && group_of(#[trigger] tiles[k]) == group && tiles[k].tile.x == x
            + size - 1 && tiles[k].tile.y == y + size - 1;
    lemma_group_extent(tiles, group, k);
    let wanted = patch_at(group, x, y, size);
    lemma_rows_find(
        tiles,
        group,
        size,
        stride,
        extent,
        starts(extent.min_y, extent.max_y, size, stride),
        i,
        j,
    );
    let s = choose|s: int| 0 <= s < sizes.len() && sizes[s] == size;
    lemma_group_finds(tiles, group, sizes, stride, s, wanted);
    law_tile_groups(tiles);
    assert(group_of(tiles[k]) == group);
    assert(tile_groups(tiles).contains(group));
    let g = choose|g: int| 0 <= g < tile_groups(tiles).len() && tile_groups(tiles)[g] == group;
    lemma_groups_find(tiles, tile_groups(tiles), sizes, stride, g, wanted);
}

/// With single tiles among the sizes and a stride of one, every image has a mosaic of its own.
pub proof fn law_native_patches(tiles: Seq<TileView>, sizes: Seq<u32>, k: int)
    requires
        sizes.contains(1),
        0 <= k < tiles.len(),
    ensures
        dataset_patches(tiles, sizes, 1).contains(
            (PatchView {
                root: tiles[k].root,
                capture: tiles[k].capture,
                tile: tiles[k].tile,
                size: 1,
                sources: seq![tiles[k].id()],
            }),
        ),
{
    let tile = tiles[k];
    let group = group_of(tile);
    lemma_group_extent(tiles, group, k);
    let extent = group_extent(tiles, group)->0;
    let i = tile.tile.x - extent.min_x;
    let j = tile.tile.y - extent.min_y;
    assert(start(extent.min_x, 1, i) == tile.tile.x);
    assert(start(extent.min_y, 1, j) == tile.tile.y);
    let x = tile.tile.x as int;
    let y = tile.tile.y as int;
    assert(has_tile(tiles, group, x, y));
    assert(complete(tiles, group, x, y, 1));
    law_complete_squares_are_patches(tiles, sizes, 1, group, 1, i, j);
    assert(source_rows(group, x, y, 1, 0) == Seq::<Seq<char>>::empty());
    assert(source_rows(group, x, y, 1, 1) =~= seq![tile.id()]);
}

/// The sizes of mosaics: those asked for and, where asked for, the sizes that come nearest to a
/// fixed width on the ground, one for each image, between 1 and 8. In rising order, each once.
pub open spec fn wanted_sizes(sizes: Seq<u32>, estimates: Seq<u32>, automatic: bool) -> Seq<u32> {
    if automatic {
        sorted_distinct(sizes + estimates.map_values(|estimate: u32| clamped(estimate)))
    } else {
        sorted_distinct(sizes)
    }
}

/// A size between 1 and 8.
pub open spec fn clamped(size: u32) -> u32 {
    if size < 1 {
        1
    } else if size > 8 {
        8
    } else {
        size
    }
}

/// Resolves the sizes of mosaics. `estimates` holds, for each image whose ground width is
/// positive, the number of its widths that is nearest to 400 meters.
pub fn resolve_patch_sizes(sizes: &[u32], estimates: &[u32], automatic: bool) -> (resolved: Vec<
    u32,
>)
    ensures
        resolved@ == wanted_sizes(sizes@, estimates@, automatic),
{
    let ghost extra = estimates@.map_values(|estimate: u32| clamped(estimate));
    let mut resolved: Vec<u32> = Vec::new();
    let mut i: usize = 0;
    while i < sizes.len()
        invariant
            0 <= i <= sizes@.len(),
            resolved@ == sorted_distinct(sizes@.take(i as int)),
        decreases sizes@.len() - i,
    {
        assert(sizes@.take(i + 1).drop_last() == sizes@.take(i as int));
        add_number(&mut resolved, sizes[i]);
        i = i + 1;
    }
    assert(sizes@.take(i as int) == sizes@);
    if !automatic {
        return resolved;
    }
    let mut k: usize = 0;
    assert(sizes@ + extra.take(0) =~= sizes@);
    while k < estimates.len()
        invariant
            0 <= k <= estimates@.len(),
            extra == estimates@.map_values(|estimate: u32| clamped(estimate)),
            resolved@ == sorted_distinct(sizes@ + extra.take(k as int)),
        decreases estimates@.len() - k,
    {
        let estimate: u32 = estimates[k];
        let size: u32 = if estimate < 1 {
            1
        } else if estimate > 8 {
            8
        } else {
            estimate
        };
        assert(extra[k as int] == size);
        assert((sizes@ + extra.take(k + 1)).drop_last() =~= sizes@ + extra.take(k as int));
        assert((sizes@ + extra.take(k + 1)).last() == size);
        add_number(&mut resolved, size);
        k = k + 1;
    }
    assert(extra.take(k as int) == extra);
    resolved
}

/// The sizes rise, so none is there twice; every size asked for is there, and every other one is
/// between 1 and 8.
pub proof fn law_wanted_sizes(sizes: Seq<u32>, estimates: Seq<u32>, automatic: bool)
    ensures
        rising(wanted_sizes(sizes, estimates, automatic)),
        wanted_sizes(sizes, estimates, automatic).no_duplicates(),
        forall|n: u32| sizes.contains(n) ==> wanted_sizes(sizes, estimates, automatic).contains(n),
        forall|n: u32|
            wanted_sizes(sizes, estimates, automatic).contains(n) ==> sizes.contains(n) || (
            automatic && 1 <= n <= 8),
{
    let extra = estimates.map_values(|estimate: u32| clamped(estimate));
    law_sorted_distinct(sizes);
    law_sorted_distinct(sizes + extra);
    assert forall|n: u32| sizes.contains(n) implies (sizes + extra).contains(n) by {
        let i = choose|i: int| 0 <= i < sizes.len() && sizes[i] == n;
        assert((sizes + extra)[i] == n);
    }
    assert forall|n: u32| (sizes + extra).contains(n) implies sizes.contains(n) || 1 <= n <= 8 by {
        let i = choose|i: int| 0 <= i < (sizes + extra).len() && (sizes + extra)[i] == n;
        if i < sizes.len() {
            assert(sizes[i] == n);
        } else {
            assert(extra[i - sizes.len()] == n);
        }
    }
}

/// Two images belong together where they lie in one directory, are of one capture and show tiles of
/// one zoom level.
pub proof fn law_images_that_belong_together(a: TileView, b: TileView)
    ensures
        group_of(a) == group_of(b) <==> a.root == b.root && a.capture == b.capture && a.tile.z
            == b.tile.z,
{
}

/// Drone images come before tiles, then captures are in the order of their texts, and then lower
/// zoom levels come first.
pub proof fn law_order_of_groups(a: GroupView, b: GroupView)
    ensures
        a.root is DroneView && b.root is Tiles ==> group_before(a, b) && !group_before(b, a),
        a.root == b.root && a.capture != b.capture ==> group_before(a, b) == text_before(
            a.capture,
            b.capture,
        ),
        a.root == b.root && a.capture == b.capture ==> group_before(a, b) == (a.z < b.z),
{
    reveal(group_before);
}

/// The extent of a group reaches from the first to the last column and from the first to the last
/// row of its images, and there is one exactly where there is an image.
pub proof fn law_extent_of_a_group(tiles: Seq<TileView>, group: GroupView)
    ensures
        match group_extent(tiles, group) {
            None => forall|i: int|
                0 <= i < tiles.len() ==> group_of(#[trigger] tiles[i]) != group,
            Some(extent) => {
                &&& forall|i: int|
                    0 <= i < tiles.len() && group_of(#[trigger] tiles[i]) == group ==> extent.min_x
                        <= tiles[i].tile.x <= extent.max_x && extent.min_y <= tiles[i].tile.y
                        <= extent.max_y
                &&& exists|i: int|
                    0 <= i < tiles.len() && group_of(#[trigger] tiles[i]) == group
                        && tiles[i].tile.x == extent.min_x
                &&& exists|i: int|
                    0 <= i < tiles.len() && group_of(#[trigger] tiles[i]) == group
                        && tiles[i].tile.x == extent.max_x
                &&& exists|i: int|
                    0 <= i < tiles.len() && group_of(#[trigger] tiles[i]) == group
                        && tiles[i].tile.y == extent.min_y
                &&& exists|i: int|
                    0 <= i < tiles.len() && group_of(#[trigger] tiles[i]) == group
                        && tiles[i].tile.y == extent.max_y
            },
        },
    decreases tiles.len(),
{
    assert forall|i: int| 0 <= i < tiles.len() && group_of(#[trigger] tiles[i]) == group implies (
    group_extent(tiles, group) matches Some(extent) && extent.min_x <= tiles[i].tile.x
        <= extent.max_x && extent.min_y <= tiles[i].tile.y <= extent.max_y) by {
        lemma_group_extent(tiles, group, i);
    }
    if tiles.len() > 0 {
        let front = tiles.drop_last();
        law_extent_of_a_group(front, group);
        let last = tiles.len() - 1;
        if let Some(extent) = group_extent(front, group) {
            let a = choose|i: int|
                0 <= i < front.len() && group_of(#[trigger] front[i]) == group && front[i].tile.x
                    == extent.min_x;
            let b = choose|i: int|
                0 <= i < front.len() && group_of(#[trigger] front[i]) == group && front[i].tile.x
                    == extent.max_x;
            let c = choose|i: int|
                0 <= i < front.len() && group_of(#[trigger] front[i]) == group && front[i].tile.y
                    == extent.min_y;
            let d = choose|i: int|
                0 <= i < front.len() && group_of(#[trigger] front[i]) == group && front[i].tile.y
                    == extent.max_y;
            assert(tiles[a] == front[a] && tiles[b] == front[b]);
            assert(tiles[c] == front[c] && tiles[d] == front[d]);
        }
        assert(tiles[last] == tiles.last());
    }
}

/// The images of a mosaic are named row by row from the top, each row from the left.
pub proof fn law_sources_row_by_row(tiles: Seq<TileView>, patch: PatchView, i: int, j: int)
    requires
        sound_patch(tiles, patch),
        0 <= i < patch.size,
        0 <= j < patch.size,
    ensures
        0 <= j * patch.size + i < patch.sources.len(),
        patch.sources[j * patch.size + i] == tile_name(
            patch.root,
            patch.capture,
            Tile {
                x: (patch.tile.x + i) as u32,
                y: (patch.tile.y + j) as u32,
                z: patch.tile.z,
            },
        ),
{
    let size = patch.size as nat;
    lemma_source_at(
        patch.group(),
        patch.tile.x as int,
        patch.tile.y as int,
        size,
        size,
        i,
        j,
    );
}

proof fn lemma_source_at(
    group: GroupView,
    x: int,
    y: int,
    size: nat,
    rows: nat,
    i: int,
    j: int,
)
    requires
        0 <= i < size,
        0 <= j < rows,
    ensures
        0 <= j * size + i < source_rows(group, x, y, size, rows).len(),
        source_rows(group, x, y, size, rows)[j * size + i] == tile_name(
            group.root,
            group.capture,
            Tile { x: (x + i) as u32, y: (y + j) as u32, z: group.z },
        ),
    decreases rows,
{
    let less = (rows - 1) as nat;
    let front = source_rows(group, x, y, size, less);
    let row = source_row(group, x, y + rows - 1, size);
    let whole = source_rows(group, x, y, size, rows);
    lemma_source_count(group, x, y, size, less);
    lemma_source_count(group, x, y, size, rows);
    assert(whole == front + row);
    assert(j * size >= 0) by (nonlinear_arith)
        requires
            j >= 0,
            size >= 0,
    ;
    if j < less {
        lemma_source_at(group, x, y, size, less, i, j);
        assert(whole[j * size + i] == front[j * size + i]);
    } else {
        assert(j * size == size * less) by (nonlinear_arith)
            requires
                j == less,
        ;
        assert(whole[j * size + i] == row[i]);
        assert(y + rows - 1 == y + j);
    }
}

/// A mosaic reaches from its top left tile to the tile that is as many columns and rows further as
/// its size less one; it covers the globe from the west and north of the one to the east and south
/// of the other, and a mosaic of one tile covers that tile.
pub proof fn law_corners_of_a_mosaic(patch: PatchView, first: TileBounds, last: TileBounds)
    requires
        patch.size >= 1,
        patch.tile.x + patch.size - 1 <= u32::MAX,
        patch.tile.y + patch.size - 1 <= u32::MAX,
    ensures
        last_tile(patch).z == patch.tile.z,
        last_tile(patch).x - patch.tile.x == patch.size - 1,
        last_tile(patch).y - patch.tile.y == patch.size - 1,
        spanned(first, last).lon_min == first.lon_min,
        spanned(first, last).lat_max == first.lat_max,
        spanned(first, last).lon_max == last.lon_max,
        spanned(first, last).lat_min == last.lat_min,
        spanned(first, first) == first,
{
}

/// The order in which mosaics are listed: by their groups, then by their sizes, then row by row from
/// the top, each row from the left.
pub open spec fn listed_before(a: PatchView, b: PatchView) -> bool {
    ||| group_before(a.group(), b.group())
    ||| a.group() == b.group() && a.size < b.size
    ||| a.group() == b.group() && a.size == b.size && a.tile.y < b.tile.y
    ||| a.group() == b.group() && a.size == b.size && a.tile.y == b.tile.y && a.tile.x < b.tile.x
}

/// Each mosaic is listed before those that follow it.
pub open spec fn listed_in_order(patches: Seq<PatchView>) -> bool {
    forall|i: int, j: int|
        0 <= i < j < patches.len() ==> listed_before(#[trigger] patches[i], #[trigger] patches[j])
}

proof fn lemma_listed_joined(a: Seq<PatchView>, b: Seq<PatchView>)
    requires
        listed_in_order(a),
        listed_in_order(b),
        forall|i: int, j: int|
            0 <= i < a.len() && 0 <= j < b.len() ==> listed_before(#[trigger] a[i], #[trigger] b[j]),
    ensures
        listed_in_order(a + b),
{
    let whole = a + b;
    assert forall|i: int, j: int| 0 <= i < j < whole.len() implies listed_before(
        #[trigger] whole[i],
        #[trigger] whole[j],
    ) by {
        if j < a.len() {
            assert(whole[i] == a[i] && whole[j] == a[j]);
        } else if i >= a.len() {
            assert(whole[i] == b[i - a.len()] && whole[j] == b[j - a.len()]);
        } else {
            assert(whole[i] == a[i] && whole[j] == b[j - a.len()]);
        }
    }
}

proof fn lemma_rows_listed(
    tiles: Seq<TileView>,
    group: GroupView,
    size: u32,
    stride: u32,
    extent: Extent,
    rows: nat,
)
    requires
        size >= 1,
        stride >= 1,
        extent.min_x <= extent.max_x,
        extent.min_y <= extent.max_y,
        rows <= starts(extent.min_y, extent.max_y, size, stride),
    ensures
        listed_in_order(patch_rows(tiles, group, size, stride, extent, rows)),
    decreases rows,
{
    if rows > 0 {
        let less = (rows - 1) as nat;
        lemma_rows_listed(tiles, group, size, stride, extent, less);
        lemma_rows_sound(tiles, group, size, stride, extent, less);
        lemma_starts(extent.min_y, extent.max_y, size, stride, rows - 1);
        let y = start(extent.min_y, stride, rows - 1) as u32;
        let count = starts(extent.min_x, extent.max_x, size, stride);
        lemma_row_sound(tiles, group, size, stride, extent, y, count);
        let front = patch_rows(tiles, group, size, stride, extent, less);
        let row = patch_row(tiles, group, size, stride, extent.min_x, y as int, count);
        assert(listed_in_order(row)) by {
            assert forall|i: int, j: int| 0 <= i < j < row.len() implies listed_before(
                #[trigger] row[i],
                #[trigger] row[j],
            ) by {
                assert(row[i].tile.x < row[j].tile.x);
            }
        }
        assert forall|i: int, j: int| 0 <= i < front.len() && 0 <= j < row.len() implies
            listed_before(#[trigger] front[i], #[trigger] row[j]) by {
            assert(front[i].tile.y < start(extent.min_y, stride, less as int));
            assert(row[j].tile.y == y);
        }
        lemma_listed_joined(front, row);
        assert(patch_rows(tiles, group, size, stride, extent, rows) == front + row);
    }
}

proof fn lemma_group_listed(tiles: Seq<TileView>, group: GroupView, sizes: Seq<u32>, stride: u32)
    requires
        stride >= 1,
        rising(sizes),
    ensures
        listed_in_order(group_patches(tiles, group, sizes, stride)),
    decreases sizes.len(),
{
    if sizes.len() > 0 {
        let less = sizes.drop_last();
        let size = sizes.last();
        lemma_group_listed(tiles, group, less, stride);
        lemma_group_sound(tiles, group, less, stride);
        lemma_sized_sound(tiles, group, size, stride);
        lemma_extent_ordered(tiles, group);
        if let Some(extent) = group_extent(tiles, group) {
            if size >= 1 {
                lemma_rows_listed(
                    tiles,
                    group,
                    size,
                    stride,
                    extent,
                    starts(extent.min_y, extent.max_y, size, stride),
                );
            }
        }
        let front = group_patches(tiles, group, less, stride);
        let back = sized_patches(tiles, group, size, stride);
        assert forall|i: int, j: int| 0 <= i < front.len() && 0 <= j < back.len() implies
            listed_before(#[trigger] front[i], #[trigger] back[j]) by {
            assert(less.contains(front[i].size));
            let k = choose|k: int| 0 <= k < less.len() && less[k] == front[i].size;
            assert(sizes[k] < sizes[sizes.len() - 1]);
        }
        lemma_listed_joined(front, back);
        assert(group_patches(tiles, group, sizes, stride) == front + back);
    }
}

proof fn lemma_groups_listed(
    tiles: Seq<TileView>,
    groups: Seq<GroupView>,
    sizes: Seq<u32>,
    stride: u32,
)
    requires
        stride >= 1,
        rising(sizes),
        groups_rising(groups),
    ensures
        listed_in_order(patches_of_groups(tiles, groups, sizes, stride)),
    decreases groups.len(),
{
    if groups.len() > 0 {
        let less = groups.drop_last();
        lemma_groups_listed(tiles, less, sizes, stride);
        lemma_groups_sound(tiles, less, sizes, stride);
        lemma_group_listed(tiles, groups.last(), sizes, stride);
        lemma_group_sound(tiles, groups.last(), sizes, stride);
        let front = patches_of_groups(tiles, less, sizes, stride);
        let back = group_patches(tiles, groups.last(), sizes, stride);
        assert forall|i: int, j: int| 0 <= i < front.len() && 0 <= j < back.len() implies
            listed_before(#[trigger] front[i], #[trigger] back[j]) by {
            assert(less.contains(front[i].group()));
            let k = choose|k: int| 0 <= k < less.len() && less[k] == front[i].group();
            assert(group_before(groups[k], groups[groups.len() - 1]));
        }
        lemma_listed_joined(front, back);
        assert(patches_of_groups(tiles, groups, sizes, stride) == front + back);
    }
}

/// The mosaics of a dataset are listed group by group, size by size, row by row and from the left.
pub proof fn law_mosaics_are_listed_in_order(tiles: Seq<TileView>, sizes: Seq<u32>, stride: u32)
    requires
        stride >= 1,
        rising(sizes),
    ensures
        listed_in_order(dataset_patches(tiles, sizes, stride)),
{
    law_tile_groups(tiles);
    lemma_groups_listed(tiles, tile_groups(tiles), sizes, stride);
}

/// Which sizes are made: without estimates those that were asked for; with them also each estimate
/// from one to eight, one for an estimate of nothing, and eight for one above eight.
pub proof fn law_estimated_sizes(sizes: Seq<u32>, estimates: Seq<u32>, n: u32)
    ensures
        wanted_sizes(sizes, estimates, false).contains(n) <==> sizes.contains(n),
        wanted_sizes(sizes, estimates, true).contains(n) <==> {
            ||| sizes.contains(n)
            ||| 1 <= n <= 8 && estimates.contains(n)
            ||| n == 1 && estimates.contains(0)
            ||| n == 8 && exists|i: int| 0 <= i < estimates.len() && #[trigger] estimates[i] > 8
        },
{
    let extra = estimates.map_values(|estimate: u32| clamped(estimate));
    law_sorted_distinct(sizes);
    law_sorted_distinct(sizes + extra);
    if (sizes + extra).contains(n) {
        let i = choose|i: int| 0 <= i < (sizes + extra).len() && (sizes + extra)[i] == n;
        if i < sizes.len() {
            assert(sizes[i] == n);
        } else {
            let e = estimates[i - sizes.len()];
            assert(estimates.contains(e));
            assert(extra[i - sizes.len()] == n);
            assert(clamped(e) == n);
        }
    }
    if sizes.contains(n) {
        let i = choose|i: int| 0 <= i < sizes.len() && sizes[i] == n;
        assert((sizes + extra)[i] == n);
    }
    if 1 <= n <= 8 && estimates.contains(n) {
        let i = choose|i: int| 0 <= i < estimates.len() && estimates[i] == n;
        assert((sizes + extra)[sizes.len() + i] == n);
    }
    if n == 1 && estimates.contains(0) {
        let i = choose|i: int| 0 <= i < estimates.len() && estimates[i] == 0;
        assert((sizes + extra)[sizes.len() + i] == n);
    }
    if n == 8 && exists|i: int| 0 <= i < estimates.len() && #[trigger] estimates[i] > 8 {
        let i = choose|i: int| 0 <= i < estimates.len() && #[trigger] estimates[i] > 8;
        assert((sizes + extra)[sizes.len() + i] == n);
    }
}

} // verus!
