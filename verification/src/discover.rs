//! The source images of a dataset.
use crate::ids::{ImageRoot, join_path, joined, tile_file, tile_name};
use crate::image_header::{ImageHeader, image_header, read_image_header};
use crate::order::{is_path_before, lemma_path_order, lemma_path_transitive, path_before};
use crate::text::{
    decimal, is_digit, law_decimal_round_trip, leads_on, lemma_decimal_value, lemma_leading_on,
    lemma_split_joined, lemma_split_single, lower, lower_text, parse_unsigned, path_parts,
    same_text, split, split_path, texts, unsigned_value,
};
use crate::tile::{MAX_ZOOM, Tile};
use std::collections::VecDeque;
use vstd::arithmetic::power2::pow2;
use vstd::prelude::*;
use vstd::string::StringExecFns;

verus! {

/// A file found under a directory of source images.
#[derive(Debug)]
pub struct SourceFile {
    /// The path below the directory.
    pub relative: String,
    /// The size of the file in bytes.
    pub bytes: u64,
    /// What the first bytes of the file tell.
    pub header: ImageHeader,
}

/// What a source file is.
pub struct SourceView {
    pub relative: Seq<char>,
    pub bytes: u64,
    pub header: ImageHeader,
}

impl View for SourceFile {
    type V = SourceView;

    open spec fn view(&self) -> SourceView {
        SourceView { relative: self.relative@, bytes: self.bytes, header: self.header }
    }
}

impl SourceFile {
    /// A file with its size and, where it could be read, its contents.
    pub fn new(relative: String, bytes: u64, data: Option<&[u8]>) -> (file: SourceFile)
        ensures
            file@.relative == relative@,
            file@.bytes == bytes,
            file@.header == (match data {
                Some(data) => image_header(data@),
                None => ImageHeader { width: None, height: None, format: None },
            }),
    {
        let header = match data {
            Some(data) => read_image_header(data),
            None => ImageHeader { width: None, height: None, format: None },
        };
        SourceFile { relative, bytes, header }
    }
}

/// What a list of files is.
pub open spec fn source_views(files: Seq<SourceFile>) -> Seq<SourceView> {
    files.map_values(|file: SourceFile| file@)
}

/// The place of the last dot of a file name, or -1 where it has none.
pub open spec fn last_dot(name: Seq<char>) -> int
    decreases name.len(),
{
    if name.len() == 0 {
        -1
    } else if name.last() == '.' {
        name.len() - 1
    } else {
        last_dot(name.drop_last())
    }
}

/// The part of a file name before its last dot. A dot at the front starts no extension.
pub open spec fn stem(name: Seq<char>) -> Seq<char> {
    if last_dot(name) <= 0 {
        name
    } else {
        name.take(last_dot(name))
    }
}

/// The part of a file name behind its last dot. A dot at the front starts no extension.
pub open spec fn extension(name: Seq<char>) -> Option<Seq<char>> {
    if last_dot(name) <= 0 {
        None
    } else {
        Some(name.skip(last_dot(name) + 1))
    }
}

proof fn lemma_last_dot(name: Seq<char>)
    ensures
        -1 <= last_dot(name) < name.len(),
    decreases name.len(),
{
    if name.len() > 0 && name.last() != '.' {
        lemma_last_dot(name.drop_last());
    }
}

/// Splits a file name into its stem and its extension.
pub fn split_file_name(name: &str) -> (parts: (String, Option<String>))
    ensures
        parts.0@ == stem(name@),
        parts.1 is Some <==> extension(name@) is Some,
        parts.1 matches Some(text) ==> extension(name@) == Some(text@),
{
    let total: usize = name.unicode_len();
    let mut count: usize = total;
    assert(name@.take(count as int) == name@);
    proof {
        lemma_last_dot(name@);
    }
    while count > 0 && name.get_char(count - 1) != '.'
        invariant
            0 <= count <= name@.len(),
            last_dot(name@) == last_dot(name@.take(count as int)),
        decreases count,
    {
        assert(name@.take(count as int).drop_last() == name@.take(count - 1));
        count = count - 1;
    }
    if count <= 1 {
        assert(count == 1 ==> name@.take(1).last() == '.');
        assert(last_dot(name@) == count - 1);
        return (name.to_owned(), None);
    }
    assert(name@.take(count as int).last() == '.');
    let front = name.substring_char(0, count - 1);
    let back = name.substring_char(count, total);
    assert(front@ =~= name@.take(count - 1));
    assert(back@ =~= name@.skip(count as int));
    (front.to_owned(), Some(back.to_owned()))
}

/// The extensions of source images, in lower case.
pub open spec fn is_supported(extension: Seq<char>) -> bool {
    extension == "jpg"@ || extension == "jpeg"@ || extension == "png"@ || extension == "webp"@
}

/// Whether an extension, in lower case, is one of a source image.
pub fn is_supported_extension(extension: &str) -> (answer: bool)
    ensures
        answer == is_supported(extension@),
{
    same_text(extension, "jpg") || same_text(extension, "jpeg") || same_text(extension, "png")
        || same_text(extension, "webp")
}

/// The extension of an image, in lower case, where its path has one that is supported.
pub open spec fn image_extension(path: Seq<char>) -> Option<Seq<char>> {
    match path_extension(path) {
        Some(text) => if is_supported(lower(text)) {
            Some(lower(text))
        } else {
            None
        },
        None => None,
    }
}

/// The file name at the end of a path, where the path does not end with the way up.
pub open spec fn file_name(path: Seq<char>) -> Option<Seq<char>> {
    let parts = path_parts(path);
    if parts.len() == 0 || parts.last() == ".."@ {
        None
    } else {
        Some(parts.last())
    }
}

/// The extension of the file that a path leads to.
pub open spec fn path_extension(path: Seq<char>) -> Option<Seq<char>> {
    match file_name(path) {
        Some(name) => extension(name),
        None => None,
    }
}

/// Reads off a path the extension of the file that it leads to.
pub fn extension_of(path: &str) -> (result: Option<String>)
    ensures
        result is Some <==> path_extension(path@) is Some,
        result matches Some(text) ==> path_extension(path@) == Some(text@),
{
    let parts = split_path(path);
    let ghost views = texts(parts@);
    if parts.len() == 0 {
        return None;
    }
    let last: usize = parts.len() - 1;
    assert(views[last as int] == parts@[last as int]@);
    if same_text(parts[last].as_str(), "..") {
        return None;
    }
    let (_, extension) = split_file_name(parts[last].as_str());
    extension
}

/// Where an image lies in the layout of tiles.
#[derive(Debug)]
pub struct ImagePath {
    pub capture_id: String,
    pub z: u32,
    pub x: u32,
    pub y: u32,
}

/// Where an image lies: `z/x/y.extension`, or the same below a directory for the capture. The zoom
/// level is at most the highest.
pub open spec fn image_place(relative: Seq<char>) -> Option<(Seq<char>, Tile)> {
    let parts = path_parts(relative);
    if parts.len() != 3 && parts.len() != 4 {
        None
    } else {
        let capture = if parts.len() == 3 {
            "default"@
        } else {
            parts[0]
        };
        let z = unsigned_value(parts[parts.len() - 3], u32::MAX as nat);
        let x = unsigned_value(parts[parts.len() - 2], u32::MAX as nat);
        let y = unsigned_value(stem(parts.last()), u32::MAX as nat);
        match (z, x, y) {
            (Some(z), Some(x), Some(y)) => if z > MAX_ZOOM {
                None
            } else {
                Some((capture, Tile { x: x as u32, y: y as u32, z: z as u32 }))
            },
            _ => None,
        }
    }
}

/// Reads off a path where its image lies in the layout of tiles.
pub fn parse_image_path(relative: &str) -> (place: Option<ImagePath>)
    ensures
        match place {
            Some(found) => image_place(relative@) == Some(
                (found.capture_id@, Tile { x: found.x, y: found.y, z: found.z }),
            ),
            None => image_place(relative@) is None,
        },
{
    let parts = split_path(relative);
    let ghost views = texts(parts@);
    let count: usize = parts.len();
    if count != 3 && count != 4 {
        return None;
    }
    assert(views[0] == parts@[0]@);
    assert(views[count - 3] == parts@[count - 3]@);
    assert(views[count - 2] == parts@[count - 2]@);
    assert(views[count - 1] == parts@[count - 1]@);
    let capture_id = if count == 3 {
        "default".to_owned()
    } else {
        parts[0].clone()
    };
    let (name, _) = split_file_name(parts[count - 1].as_str());
    let z = parse_unsigned(parts[count - 3].as_str(), u32::MAX as u64);
    let x = parse_unsigned(parts[count - 2].as_str(), u32::MAX as u64);
    let y = parse_unsigned(name.as_str(), u32::MAX as u64);
    match (z, x, y) {
        (Some(z), Some(x), Some(y)) => {
            if z > MAX_ZOOM as u64 {
                None
            } else {
                Some(ImagePath { capture_id, z: z as u32, x: x as u32, y: y as u32 })
            }
        },
        _ => None,
    }
}

/// A source image of a dataset.
#[derive(Debug)]
pub struct TileRecord {
    pub root: ImageRoot,
    pub capture_id: String,
    pub tile: Tile,
    /// The extension of the file in lower case, without a dot.
    pub extension: String,
    pub header: ImageHeader,
    /// The path below the output directory.
    pub path: String,
    pub bytes: u64,
}

/// What a source image is.
pub struct TileView {
    pub root: ImageRoot,
    pub capture: Seq<char>,
    pub tile: Tile,
    pub extension: Seq<char>,
    pub header: ImageHeader,
    pub path: Seq<char>,
    pub bytes: u64,
}

impl View for TileRecord {
    type V = TileView;

    open spec fn view(&self) -> TileView {
        TileView {
            root: self.root,
            capture: self.capture_id@,
            tile: self.tile,
            extension: self.extension@,
            header: self.header,
            path: self.path@,
            bytes: self.bytes,
        }
    }
}

impl TileView {
    /// The name of the image.
    pub open spec fn id(self) -> Seq<char> {
        tile_name(self.root, self.capture, self.tile)
    }
}

/// What a list of source images is.
pub open spec fn tile_views(tiles: Seq<TileRecord>) -> Seq<TileView> {
    tiles.map_values(|tile: TileRecord| tile@)
}

/// The tile exists at its zoom level.
pub open spec fn on_map(tile: Tile) -> bool {
    tile.x < pow2(tile.z as nat) && tile.y < pow2(tile.z as nat)
}

/// The source image that a file is, where it has a supported extension and its path tells a tile
/// that exists.
pub open spec fn source_image(root: ImageRoot, file: SourceView) -> Option<TileView> {
    match (image_extension(file.relative), image_place(file.relative)) {
        (Some(extension), Some((capture, tile))) => if on_map(tile) {
            Some(
                TileView {
                    root,
                    capture,
                    tile,
                    extension,
                    header: file.header,
                    path: joined(root.directory(), file.relative),
                    bytes: file.bytes,
                },
            )
        } else {
            None
        },
        _ => None,
    }
}

/// The source images among files, in the order of the files.
pub open spec fn source_images(root: ImageRoot, files: Seq<SourceView>) -> Seq<TileView>
    decreases files.len(),
{
    if files.len() == 0 {
        Seq::empty()
    } else {
        let front = source_images(root, files.drop_last());
        match source_image(root, files.last()) {
            Some(tile) => front.push(tile),
            None => front,
        }
    }
}

/// The number of tiles along one side of the map at a zoom level.
fn map_side(z: u32) -> (side: u64)
    requires
        z <= MAX_ZOOM,
    ensures
        side == pow2(z as nat),
{
    let mut side: u64 = 1;
    let mut i: u32 = 0;
    proof {
        vstd::arithmetic::power2::lemma2_to64();
    }
    while i < z
        invariant
            0 <= i <= z <= MAX_ZOOM,
            side == pow2(i as nat),
            side <= 0x4000_0000,
        decreases z - i,
    {
        proof {
            vstd::arithmetic::power2::lemma_pow2_unfold((i + 1) as nat);
            vstd::arithmetic::power2::lemma2_to64();
            if i + 1 < 30 {
                vstd::arithmetic::power2::lemma_pow2_strictly_increases((i + 1) as nat, 30);
            }
        }
        side = side * 2;
        i = i + 1;
    }
    side
}

/// Makes a source image of a file, where it is one.
pub fn read_source_image(root: ImageRoot, file: &SourceFile) -> (tile: Option<TileRecord>)
    ensures
        match tile {
            Some(found) => source_image(root, file@) == Some(found@),
            None => source_image(root, file@) is None,
        },
{
    let extension = match extension_of(file.relative.as_str()) {
        Some(text) => lower_text(text.as_str()),
        None => {
            return None;
        },
    };
    if !is_supported_extension(extension.as_str()) {
        return None;
    }
    let place = match parse_image_path(file.relative.as_str()) {
        Some(place) => place,
        None => {
            return None;
        },
    };
    let side: u64 = map_side(place.z);
    if place.x as u64 >= side || place.y as u64 >= side {
        return None;
    }
    Some(
        TileRecord {
            root,
            capture_id: place.capture_id,
            tile: Tile { x: place.x, y: place.y, z: place.z },
            extension,
            header: file.header,
            path: join_path(root.name(), file.relative.as_str()),
            bytes: file.bytes,
        },
    )
}

/// No file comes after one that its path puts behind it.
pub open spec fn in_path_order(files: Seq<SourceView>) -> bool {
    forall|i: int, j: int|
        0 <= i < j < files.len() ==> !path_before(
            (#[trigger] files[j]).relative,
            (#[trigger] files[i]).relative,
        )
}

/// The same files, in the order of their paths.
pub open spec fn arranged(files: Seq<SourceView>, order: Seq<SourceView>) -> bool {
    in_path_order(order) && order.to_multiset() == files.to_multiset()
}

proof fn lemma_not_before(a: Seq<char>, b: Seq<char>, c: Seq<char>)
    requires
        !path_before(b, a),
        !path_before(c, b),
    ensures
        !path_before(c, a),
{
    if path_before(c, a) {
        lemma_path_order(a, b);
        if path_parts(a) != path_parts(b) {
            lemma_path_transitive(c, a, b);
        }
    }
}

/// Nothing in `later` belongs before anything in `sooner`.
spec fn follows(sooner: Seq<SourceView>, later: Seq<SourceView>) -> bool {
    forall|i: int, j: int|
        0 <= i < sooner.len() && 0 <= j < later.len() ==> !path_before(
            (#[trigger] later[j]).relative,
            (#[trigger] sooner[i]).relative,
        )
}

proof fn lemma_take_front(
    merged: Seq<SourceView>,
    from: Seq<SourceView>,
    other: Seq<SourceView>,
)
    requires
        from.len() > 0,
        in_path_order(merged),
        in_path_order(from),
        follows(merged, from),
        follows(merged, other),
        other.len() > 0 ==> in_path_order(other) && !path_before(
            other[0].relative,
            from[0].relative,
        ),
    ensures
        in_path_order(merged.push(from[0])),
        in_path_order(from.skip(1)),
        follows(merged.push(from[0]), from.skip(1)),
        follows(merged.push(from[0]), other),
        merged.push(from[0]).to_multiset().add(from.skip(1).to_multiset()) =~= merged.to_multiset().add(
            from.to_multiset(),
        ),
{
    let next = merged.push(from[0]);
    let rest = from.skip(1);
    assert forall|i: int, j: int| 0 <= i < next.len() && 0 <= j < other.len() implies !path_before(
        (#[trigger] other[j]).relative,
        (#[trigger] next[i]).relative,
    ) by {
        if i == merged.len() {
            if j > 0 {
                lemma_not_before(from[0].relative, other[0].relative, other[j].relative);
            }
        } else {
            assert(next[i] == merged[i]);
        }
    }
    assert forall|i: int, j: int| 0 <= i < next.len() && 0 <= j < rest.len() implies !path_before(
        (#[trigger] rest[j]).relative,
        (#[trigger] next[i]).relative,
    ) by {
        assert(rest[j] == from[j + 1]);
        if i < merged.len() {
            assert(next[i] == merged[i]);
        }
    }
    assert forall|i: int, j: int| 0 <= i < j < next.len() implies !path_before(
        (#[trigger] next[j]).relative,
        (#[trigger] next[i]).relative,
    ) by {
        assert(next[i] == merged[i]);
        if j < merged.len() {
            assert(next[j] == merged[j]);
        } else {
            assert(next[j] == from[0]);
        }
    }
    assert forall|i: int, j: int| 0 <= i < j < rest.len() implies !path_before(
        (#[trigger] rest[j]).relative,
        (#[trigger] rest[i]).relative,
    ) by {
        assert(rest[i] == from[i + 1]);
        assert(rest[j] == from[j + 1]);
    }
    broadcast use vstd::seq_lib::group_to_multiset_ensures;

    assert(rest =~= from.remove(0));
    assert(from.contains(from[0]));
    assert(next.to_multiset() =~= merged.to_multiset().insert(from[0]));
    assert(rest.to_multiset() =~= from.to_multiset().remove(from[0]));
    assert(from.to_multiset().count(from[0]) > 0);
}

fn merge_files(left: VecDeque<SourceFile>, right: VecDeque<SourceFile>) -> (merged: VecDeque<
    SourceFile,
>)
    requires
        in_path_order(source_views(left@)),
        in_path_order(source_views(right@)),
    ensures
        in_path_order(source_views(merged@)),
        source_views(merged@).to_multiset() == source_views(left@).to_multiset().add(
            source_views(right@).to_multiset(),
        ),
{
    let ghost total = source_views(left@).to_multiset().add(source_views(right@).to_multiset());
    let mut a = left;
    let mut b = right;
    let mut merged: VecDeque<SourceFile> = VecDeque::new();
    assert(source_views(merged@).to_multiset().add(source_views(a@).to_multiset()).add(
        source_views(b@).to_multiset(),
    ) =~= total) by {
        broadcast use vstd::seq_lib::group_to_multiset_ensures;

        assert(source_views(merged@) =~= Seq::<SourceView>::empty());
        assert(source_views(merged@).to_multiset() =~= vstd::multiset::Multiset::empty());
    }
    while a.len() > 0 || b.len() > 0
        invariant
            in_path_order(source_views(merged@)),
            in_path_order(source_views(a@)),
            in_path_order(source_views(b@)),
            follows(source_views(merged@), source_views(a@)),
            follows(source_views(merged@), source_views(b@)),
            source_views(merged@).to_multiset().add(source_views(a@).to_multiset()).add(
                source_views(b@).to_multiset(),
            ) == total,
        decreases a@.len() + b@.len(),
    {
        let ghost m = source_views(merged@);
        let ghost x = source_views(a@);
        let ghost y = source_views(b@);
        let from_left = if a.len() == 0 {
            false
        } else if b.len() == 0 {
            true
        } else {
            assert(x[0] == a@[0]@);
            assert(y[0] == b@[0]@);
            !is_path_before(b[0].relative.as_str(), a[0].relative.as_str())
        };
        let next = if from_left {
            a.pop_front()
        } else {
            b.pop_front()
        };
        if let Some(file) = next {
            merged.push_back(file);
            assert(source_views(merged@) =~= m.push(file@));
        }
        proof {
            if from_left {
                lemma_take_front(m, x, y);
                assert(source_views(a@) =~= x.skip(1));
                assert(source_views(merged@).to_multiset().add(source_views(a@).to_multiset()).add(
                    y.to_multiset(),
                ) =~= total);
            } else {
                if x.len() > 0 {
                    lemma_path_order(x[0].relative, y[0].relative);
                }
                lemma_take_front(m, y, x);
                assert(source_views(b@) =~= y.skip(1));
                assert(m.to_multiset().add(y.to_multiset()).add(x.to_multiset()) =~= total);
                assert(source_views(merged@).to_multiset().add(x.to_multiset()).add(
                    source_views(b@).to_multiset(),
                ) =~= total);
            }
        }
    }
    assert(source_views(merged@).to_multiset() =~= total) by {
        broadcast use vstd::seq_lib::group_to_multiset_ensures;

        assert(source_views(a@) =~= Seq::<SourceView>::empty());
        assert(source_views(b@) =~= Seq::<SourceView>::empty());
    }
    merged
}

fn sort_queue(files: VecDeque<SourceFile>) -> (sorted: VecDeque<SourceFile>)
    ensures
        arranged(source_views(files@), source_views(sorted@)),
    decreases files@.len(),
{
    let count: usize = files.len();
    if count <= 1 {
        return files;
    }
    let mut front = files;
    let ghost views = source_views(files@);
    let back = front.split_off(count / 2);
    assert(source_views(front@) + source_views(back@) =~= views);
    proof {
        vstd::seq_lib::lemma_multiset_commutative(source_views(front@), source_views(back@));
    }
    merge_files(sort_queue(front), sort_queue(back))
}

/// Puts files in the order of their paths.
pub fn sort_files(files: Vec<SourceFile>) -> (sorted: Vec<SourceFile>)
    ensures
        arranged(source_views(files@), source_views(sorted@)),
{
    let ghost views = source_views(files@);
    let mut queue: VecDeque<SourceFile> = VecDeque::new();
    for file in it: files
        invariant
            it.seq() == files@,
            queue@ == files@.take(it.index() as int),
    {
        queue.push_back(file);
        assert(files@.take(it.index() as int + 1) =~= files@.take(it.index() as int).push(file));
    }
    assert(queue@ =~= files@);
    let mut queue = sort_queue(queue);
    let ghost order = queue@;
    let mut sorted: Vec<SourceFile> = Vec::new();
    while queue.len() > 0
        invariant
            sorted@ + queue@ == order,
        decreases queue@.len(),
    {
        if let Some(file) = queue.pop_front() {
            sorted.push(file);
        }
        assert(sorted@ + queue@ =~= order);
    }
    assert(sorted@ =~= order);
    sorted
}

/// No two files have the same path.
pub open spec fn paths_distinct(files: Seq<SourceView>) -> bool {
    forall|i: int, j: int|
        0 <= i < j < files.len() ==> path_parts((#[trigger] files[i]).relative) != path_parts(
            (#[trigger] files[j]).relative,
        )
}

proof fn lemma_permuted_distinct(files: Seq<SourceView>, order: Seq<SourceView>)
    requires
        paths_distinct(files),
        order.to_multiset() == files.to_multiset(),
    ensures
        paths_distinct(order),
{
    broadcast use vstd::seq_lib::group_to_multiset_ensures;

    assert(files.no_duplicates()) by {
        assert forall|i: int, j: int|
            0 <= i < files.len() && 0 <= j < files.len() && i != j implies files[i] != files[j] by {
            if i < j {
                assert(path_parts(files[i].relative) != path_parts(files[j].relative));
            } else {
                assert(path_parts(files[j].relative) != path_parts(files[i].relative));
            }
        }
    }
    files.lemma_multiset_has_no_duplicates();
    order.lemma_multiset_has_no_duplicates_conv();
    assert forall|i: int, j: int| 0 <= i < j < order.len() implies path_parts(
        (#[trigger] order[i]).relative,
    ) != path_parts((#[trigger] order[j]).relative) by {
        assert(order[i] != order[j]);
        assert(order.contains(order[i]) && order.contains(order[j]));
        assert(files.to_multiset().count(order[i]) > 0);
        assert(files.to_multiset().count(order[j]) > 0);
        assert(files.contains(order[i]) && files.contains(order[j]));
        let p = choose|p: int| 0 <= p < files.len() && files[p] == order[i];
        let q = choose|q: int| 0 <= q < files.len() && files[q] == order[j];
        if p < q {
            assert(path_parts(files[p].relative) != path_parts(files[q].relative));
        } else {
            assert(path_parts(files[q].relative) != path_parts(files[p].relative));
        }
    }
}

proof fn lemma_orders_agree(a: Seq<SourceView>, b: Seq<SourceView>)
    requires
        in_path_order(a),
        in_path_order(b),
        paths_distinct(a),
        paths_distinct(b),
        a.to_multiset() == b.to_multiset(),
    ensures
        a == b,
    decreases a.len(),
{
    broadcast use vstd::seq_lib::group_to_multiset_ensures;

    assert(a.len() == b.len()) by {
        assert(a.to_multiset().len() == a.len());
        assert(b.to_multiset().len() == b.len());
    }
    if a.len() > 0 {
        assert(a.contains(a[0]) && b.contains(b[0]));
        assert(b.to_multiset().count(a[0]) > 0 && a.to_multiset().count(b[0]) > 0);
        assert(b.contains(a[0]) && a.contains(b[0]));
        let i = choose|i: int| 0 <= i < b.len() && b[i] == a[0];
        let j = choose|j: int| 0 <= j < a.len() && a[j] == b[0];
        if i > 0 {
            assert(path_parts(b[0].relative) != path_parts(b[i].relative));
            assert(j > 0);
            assert(!path_before(b[i].relative, b[0].relative));
            assert(!path_before(a[j].relative, a[0].relative));
            lemma_path_order(a[0].relative, b[0].relative);
        }
        assert(a[0] == b[0]);
        let x = a.remove(0);
        let y = b.remove(0);
        assert(x.to_multiset() =~= a.to_multiset().remove(a[0]));
        assert(y.to_multiset() =~= b.to_multiset().remove(b[0]));
        assert forall|p: int, q: int| 0 <= p < q < x.len() implies !path_before(
            (#[trigger] x[q]).relative,
            (#[trigger] x[p]).relative,
        ) && path_parts(x[p].relative) != path_parts(x[q].relative) by {
            assert(x[p] == a[p + 1] && x[q] == a[q + 1]);
        }
        assert forall|p: int, q: int| 0 <= p < q < y.len() implies !path_before(
            (#[trigger] y[q]).relative,
            (#[trigger] y[p]).relative,
        ) && path_parts(y[p].relative) != path_parts(y[q].relative) by {
            assert(y[p] == b[p + 1] && y[q] == b[q + 1]);
        }
        lemma_orders_agree(x, y);
        assert(a =~= seq![a[0]] + x);
        assert(b =~= seq![b[0]] + y);
    }
}

/// Files with different paths have only one order.
pub proof fn law_path_order_is_unique(
    files: Seq<SourceView>,
    a: Seq<SourceView>,
    b: Seq<SourceView>,
)
    requires
        paths_distinct(files),
        arranged(files, a),
        arranged(files, b),
    ensures
        a == b,
{
    lemma_permuted_distinct(files, a);
    lemma_permuted_distinct(files, b);
    lemma_orders_agree(a, b);
}

/// Why no dataset can be prepared from an output directory.
#[derive(Debug, Clone, Copy, PartialEq, Eq, Structural)]
pub enum DiscoverError {
    /// Neither directory of source images exists.
    NoDirectory,
    /// The directories hold no source image.
    NoTiles,
}

impl DiscoverError {
    /// The report of the error for an output directory.
    pub open spec fn report(self, out: Seq<char>) -> Seq<char> {
        match self {
            DiscoverError::NoDirectory => "tile directory not found: "@ + joined(out, "tiles"@),
            DiscoverError::NoTiles => "no valid tiles found under "@ + joined(out, "tiles"@),
        }
    }

    /// The report of the error for an output directory.
    pub fn message(&self, out: &str) -> (text: String)
        ensures
            text@ == self.report(out@),
    {
        let mut text = match self {
            DiscoverError::NoDirectory => "tile directory not found: ".to_owned(),
            DiscoverError::NoTiles => "no valid tiles found under ".to_owned(),
        };
        text.append(join_path(out, "tiles").as_str());
        text
    }
}

/// The files of a directory: none where the directory does not exist.
pub open spec fn listed(files: Option<Vec<SourceFile>>) -> Seq<SourceView> {
    match files {
        Some(files) => source_views(files@),
        None => Seq::empty(),
    }
}

/// The source images of both directories. `tiles` and `drone_view` list the files of each that
/// exists. Within a directory the images come in the order of their paths.
pub fn discover_tiles(
    tiles: Option<Vec<SourceFile>>,
    drone_view: Option<Vec<SourceFile>>,
) -> (result: Result<Vec<TileRecord>, DiscoverError>)
    ensures
        tiles is None && drone_view is None ==> result == Err::<Vec<TileRecord>, DiscoverError>(
            DiscoverError::NoDirectory,
        ),
        tiles is Some || drone_view is Some ==> exists|a: Seq<SourceView>, b: Seq<SourceView>|
            {
                let found = source_images(ImageRoot::Tiles, a) + source_images(
                    ImageRoot::DroneView,
                    b,
                );
                &&& #[trigger] arranged(listed(tiles), a)
                &&& #[trigger] arranged(listed(drone_view), b)
                &&& match result {
                    Ok(records) => found.len() > 0 && tile_views(records@) == found,
                    Err(error) => found.len() == 0 && error == DiscoverError::NoTiles,
                }
            },
{
    if tiles.is_none() && drone_view.is_none() {
        return Err(DiscoverError::NoDirectory);
    }
    let tile_files = match tiles {
        Some(files) => files,
        None => Vec::new(),
    };
    let drone_files = match drone_view {
        Some(files) => files,
        None => Vec::new(),
    };
    assert(source_views(tile_files@) =~= listed(tiles));
    assert(source_views(drone_files@) =~= listed(drone_view));
    let sorted_tiles = sort_files(tile_files);
    let sorted_drone = sort_files(drone_files);
    let ghost a = source_views(sorted_tiles@);
    let ghost b = source_views(sorted_drone@);
    let mut records: Vec<TileRecord> = Vec::new();
    assert(tile_views(records@) =~= Seq::<TileView>::empty());
    push_source_images(&mut records, ImageRoot::Tiles, sorted_tiles.as_slice());
    push_source_images(&mut records, ImageRoot::DroneView, sorted_drone.as_slice());
    assert(tile_views(records@) =~= source_images(ImageRoot::Tiles, a) + source_images(
        ImageRoot::DroneView,
        b,
    ));
    assert(arranged(listed(tiles), a) && arranged(listed(drone_view), b));
    if records.len() == 0 {
        return Err(DiscoverError::NoTiles);
    }
    Ok(records)
}

/// Appends the source images among files.
fn push_source_images(records: &mut Vec<TileRecord>, root: ImageRoot, files: &[SourceFile])
    ensures
        tile_views(final(records)@) == tile_views(old(records)@) + source_images(
            root,
            source_views(files@),
        ),
{
    let ghost views = source_views(files@);
    let ghost before = tile_views(records@);
    let mut i: usize = 0;
    assert(before + source_images(root, views.take(0)) =~= before);
    while i < files.len()
        invariant
            0 <= i <= files@.len(),
            views == source_views(files@),
            tile_views(records@) == before + source_images(root, views.take(i as int)),
        decreases files@.len() - i,
    {
        let ghost sofar = records@;
        assert(views.take(i + 1).drop_last() == views.take(i as int));
        assert(views[i as int] == files@[i as int]@);
        if let Some(record) = read_source_image(root, &files[i]) {
            records.push(record);
            assert(tile_views(records@) =~= tile_views(sofar).push(record@));
        }
        assert(tile_views(records@) =~= before + source_images(root, views.take(i + 1)));
        i = i + 1;
    }
    assert(views.take(i as int) == views);
}

/// The path of a downloaded tile below its directory.
pub open spec fn tile_relative(tile: Tile) -> Seq<char> {
    decimal(tile.z as nat).push('/') + decimal(tile.x as nat).push('/') + (decimal(tile.y as nat)
        + ".jpg"@)
}

proof fn lemma_decimal_plain(n: nat, c: char)
    requires
        !is_digit(c),
    ensures
        !decimal(n).contains(c),
{
    lemma_decimal_value(n);
}

proof fn lemma_stem_of_number(n: nat)
    ensures
        stem(decimal(n) + ".jpg"@) == decimal(n),
        extension(decimal(n) + ".jpg"@) == Some("jpg"@),
        !(decimal(n) + ".jpg"@).contains('/'),
{
    reveal_strlit(".jpg");
    reveal_strlit("jpg");
    lemma_decimal_value(n);
    lemma_decimal_plain(n, '/');
    let name = decimal(n) + ".jpg"@;
    let d = decimal(n).len() as int;
    assert(name.drop_last().drop_last().drop_last() =~= decimal(n).push('.'));
    assert(name.drop_last().drop_last() =~= decimal(n) + seq!['.', 'j']);
    assert(name.drop_last() =~= decimal(n) + seq!['.', 'j', 'p']);
    assert(last_dot(decimal(n).push('.')) == d);
    assert(last_dot(decimal(n) + seq!['.', 'j']) == d);
    assert(last_dot(decimal(n) + seq!['.', 'j', 'p']) == d);
    assert(last_dot(name) == d);
    assert(name.take(d) =~= decimal(n));
    assert(name.skip(d + 1) =~= "jpg"@);
    assert forall|i: int| 0 <= i < name.len() implies name[i] != '/' by {
        if i < d {
            assert(decimal(n).contains(name[i]));
        }
    }
}

/// The path of a downloaded tile reads back: its file lies below the directory of tiles under a
/// path that names the tile, with the default capture.
pub proof fn law_tile_path_reads_back(out: Seq<char>, tile: Tile)
    requires
        tile.z <= MAX_ZOOM,
    ensures
        tile_file(out, tile) == joined(out, "tiles"@).push('/') + tile_relative(tile),
        image_place(tile_relative(tile)) == Some(("default"@, tile)),
        image_extension(tile_relative(tile)) == Some("jpg"@),
{
    let relative = tile_relative(tile);
    let z = decimal(tile.z as nat);
    let x = decimal(tile.x as nat);
    let y = decimal(tile.y as nat) + ".jpg"@;
    reveal_strlit("tiles");
    reveal_strlit("jpg");
    lemma_decimal_value(tile.z as nat);
    lemma_decimal_value(tile.x as nat);
    lemma_decimal_value(tile.y as nat);
    lemma_decimal_plain(tile.z as nat, '/');
    lemma_decimal_plain(tile.x as nat, '/');
    lemma_stem_of_number(tile.y as nat);
    law_decimal_round_trip(tile.z as nat, u32::MAX as nat);
    law_decimal_round_trip(tile.x as nat, u32::MAX as nat);
    law_decimal_round_trip(tile.y as nat, u32::MAX as nat);
    assert(is_digit(z[0]) && is_digit(x[0]) && is_digit(decimal(tile.y as nat)[0]));
    assert(y[0] == decimal(tile.y as nat)[0]);
    let directory = joined(out, "tiles"@);
    assert(directory.last() == 's');
    let at_z = directory.push('/') + z;
    assert(joined(directory, z) == at_z);
    assert(is_digit(z[z.len() - 1]));
    assert(at_z.last() == z[z.len() - 1]);
    let at_x = at_z.push('/') + x;
    assert(joined(at_z, x) == at_x);
    assert(is_digit(x[x.len() - 1]));
    assert(at_x.last() == x[x.len() - 1]);
    assert(joined(at_x, y) == at_x.push('/') + y);
    assert(at_x.push('/') + y =~= directory.push('/') + relative);
    lemma_split_single(z, '/');
    lemma_split_joined(z, x, '/');
    let zx = z.push('/') + x;
    lemma_split_joined(zx, y, '/');
    assert(zx.push('/') + y =~= relative);
    let parts = seq![z, x, y];
    assert(split(relative, '/') =~= parts);
    reveal_strlit(".");
    reveal_strlit("..");
    assert forall|i: int| 0 <= i < parts.len() implies leads_on(#[trigger] parts[i]) by {
        assert("."@[0] == '.');
        assert(is_digit(parts[i][0]));
    }
    lemma_leading_on(parts);
    assert(".."@[0] == '.');
    assert(file_name(relative) == Some(y));
    assert(lower("jpg"@) =~= "jpg"@);
    assert(image_place(relative) == Some(("default"@, tile)));
}

/// A downloaded tile is found again: a file under its path is a source image of the tile with the
/// default capture, where the tile exists at its zoom level.
pub proof fn law_downloaded_tile_is_found(out: Seq<char>, tile: Tile, file: SourceView)
    requires
        tile.z <= MAX_ZOOM,
        on_map(tile),
        file.relative == tile_relative(tile),
    ensures
        tile_file(out, tile) == joined(out, "tiles"@).push('/') + tile_relative(tile),
        source_image(ImageRoot::Tiles, file) == Some(
            (TileView {
                root: ImageRoot::Tiles,
                capture: "default"@,
                tile,
                extension: "jpg"@,
                header: file.header,
                path: "tiles/"@ + tile_relative(tile),
                bytes: file.bytes,
            }),
        ),
{
    let z = decimal(tile.z as nat);
    reveal_strlit("tiles");
    reveal_strlit("tiles/");
    law_tile_path_reads_back(out, tile);
    lemma_decimal_value(tile.z as nat);
    assert(is_digit(z[0]));
    assert(file.relative[0] == z[0]);
    assert("tiles"@.push('/') + file.relative =~= "tiles/"@ + file.relative);
}

/// A file name is its stem, a dot and its extension, and the extension holds no dot; a name without
/// a dot behind its first character is its stem alone.
pub proof fn law_file_name_parts(name: Seq<char>)
    ensures
        match extension(name) {
            Some(text) => stem(name).len() > 0 && !text.contains('.') && name == stem(name) + seq![
                '.',
            ] + text,
            None => stem(name) == name && forall|i: int|
                0 < i < name.len() ==> #[trigger] name[i] != '.',
        },
{
    lemma_dot_is_last(name);
    lemma_last_dot(name);
    let at = last_dot(name);
    if at > 0 {
        let text = name.skip(at + 1);
        assert(name =~= name.take(at) + seq!['.'] + text);
        if text.contains('.') {
            let i = choose|i: int| 0 <= i < text.len() && text[i] == '.';
            assert(name[at + 1 + i] == '.');
        }
    }
}

proof fn lemma_dot_is_last(name: Seq<char>)
    ensures
        last_dot(name) >= 0 ==> name[last_dot(name)] == '.',
        forall|i: int| last_dot(name) < i < name.len() ==> #[trigger] name[i] != '.',
    decreases name.len(),
{
    if name.len() > 0 && name.last() != '.' {
        lemma_dot_is_last(name.drop_last());
        lemma_last_dot(name.drop_last());
        assert forall|i: int| last_dot(name) < i < name.len() implies #[trigger] name[i] != '.' by {
            if i < name.len() - 1 {
                assert(name.drop_last()[i] == name[i]);
            }
        }
    }
}

/// The extensions of images, and no others.
pub proof fn law_image_extensions(text: Seq<char>)
    ensures
        is_supported(text) <==> {
            ||| text == seq!['j', 'p', 'g']
            ||| text == seq!['j', 'p', 'e', 'g']
            ||| text == seq!['p', 'n', 'g']
            ||| text == seq!['w', 'e', 'b', 'p']
        },
{
    reveal_strlit("jpg");
    reveal_strlit("jpeg");
    reveal_strlit("png");
    reveal_strlit("webp");
    assert("jpg"@ =~= seq!['j', 'p', 'g']);
    assert("jpeg"@ =~= seq!['j', 'p', 'e', 'g']);
    assert("png"@ =~= seq!['p', 'n', 'g']);
    assert("webp"@ =~= seq!['w', 'e', 'b', 'p']);
}

proof fn lemma_numbered_file(n: nat, text: Seq<char>)
    requires
        !text.contains('.'),
        !text.contains('/'),
    ensures
        stem(decimal(n).push('.') + text) == decimal(n),
        extension(decimal(n).push('.') + text) == Some(text),
        !(decimal(n).push('.') + text).contains('/'),
        is_digit((decimal(n).push('.') + text)[0]),
{
    let name = decimal(n).push('.') + text;
    let d = decimal(n).len() as int;
    lemma_decimal_value(n);
    lemma_decimal_plain(n, '/');
    lemma_decimal_plain(n, '.');
    lemma_last_dot(name);
    lemma_dot_is_last(name);
    assert(name[d] == '.');
    let at = last_dot(name);
    if at > d {
        assert(text[at - d - 1] == '.');
    }
    assert(at == d);
    assert(name.take(d) =~= decimal(n));
    assert(name.skip(d + 1) =~= text);
    assert(is_digit(decimal(n)[0]));
    assert(name[0] == decimal(n)[0]);
    if name.contains('/') {
        let i = choose|i: int| 0 <= i < name.len() && name[i] == '/';
        if i < d {
            assert(decimal(n)[i] == '/');
        } else if i > d {
            assert(text[i - d - 1] == '/');
        }
    }
}

/// A path of three parts names zoom level, column and row in this order, with the default capture;
/// a path of four names the capture first. Zoom levels go up to thirty.
pub proof fn law_image_layout(capture: Seq<char>, tile: Tile, text: Seq<char>)
    requires
        capture.len() > 0,
        !capture.contains('/'),
        capture != seq!['.'],
        !text.contains('.'),
        !text.contains('/'),
    ensures
        ({
            let plain = decimal(tile.z as nat) + seq!['/'] + decimal(tile.x as nat) + seq!['/']
                + decimal(tile.y as nat) + seq!['.'] + text;
            let captured = capture + seq!['/'] + plain;
            &&& tile.z <= 30 ==> image_place(plain) == Some(("default"@, tile))
            &&& tile.z <= 30 ==> image_place(captured) == Some((capture, tile))
            &&& tile.z > 30 ==> image_place(plain) is None && image_place(captured) is None
            &&& path_extension(plain) == Some(text)
            &&& path_extension(captured) == Some(text)
        }),
{
    let z = decimal(tile.z as nat);
    let x = decimal(tile.x as nat);
    let y = decimal(tile.y as nat).push('.') + text;
    let plain = decimal(tile.z as nat) + seq!['/'] + decimal(tile.x as nat) + seq!['/'] + decimal(
        tile.y as nat,
    ) + seq!['.'] + text;
    let captured = capture + seq!['/'] + plain;
    lemma_decimal_value(tile.z as nat);
    lemma_decimal_value(tile.x as nat);
    lemma_decimal_plain(tile.z as nat, '/');
    lemma_decimal_plain(tile.x as nat, '/');
    lemma_numbered_file(tile.y as nat, text);
    law_decimal_round_trip(tile.z as nat, u32::MAX as nat);
    law_decimal_round_trip(tile.x as nat, u32::MAX as nat);
    law_decimal_round_trip(tile.y as nat, u32::MAX as nat);
    assert(is_digit(z[0]) && is_digit(x[0]));
    lemma_split_single(z, '/');
    lemma_split_joined(z, x, '/');
    let zx = z.push('/') + x;
    lemma_split_joined(zx, y, '/');
    assert(zx.push('/') + y =~= plain);
    let parts = seq![z, x, y];
    assert(split(plain, '/') =~= parts);
    lemma_split_single(capture, '/');
    lemma_split_joined(capture, z, '/');
    let cz = capture.push('/') + z;
    lemma_split_joined(cz, x, '/');
    let czx = cz.push('/') + x;
    lemma_split_joined(czx, y, '/');
    assert(czx.push('/') + y =~= captured);
    let more = seq![capture, z, x, y];
    assert(split(captured, '/') =~= more);
    reveal_strlit(".");
    reveal_strlit("..");
    assert("."@ =~= seq!['.']);
    assert("."@[0] == '.' && ".."@[0] == '.');
    assert forall|i: int| 0 <= i < parts.len() implies leads_on(#[trigger] parts[i]) by {
        assert(is_digit(parts[i][0]));
    }
    assert forall|i: int| 0 <= i < more.len() implies leads_on(#[trigger] more[i]) by {
        assert(i > 0 ==> is_digit(more[i][0]));
    }
    lemma_leading_on(parts);
    lemma_leading_on(more);
    assert(y != ".."@);
    assert(parts.last() == y && more.last() == y);
}

/// A file is a source image where its path tells a tile that exists and ends in a supported
/// extension, in whatever case; it keeps the contents and the size of the file and the place that
/// its path tells, and lies under the directory in which it was found.
pub proof fn law_source_image(root: ImageRoot, file: SourceView)
    ensures
        source_image(root, file) is Some <==> {
            &&& path_extension(file.relative) matches Some(text)
            &&& is_supported(lower(text))
            &&& image_place(file.relative) matches Some((_, tile))
            &&& tile.x < pow2(tile.z as nat)
            &&& tile.y < pow2(tile.z as nat)
        },
        source_image(root, file) matches Some(image) ==> {
            &&& image.root == root
            &&& image.bytes == file.bytes
            &&& image.header == file.header
            &&& path_extension(file.relative) matches Some(text) && image.extension == lower(text)
            &&& image_place(file.relative) == Some((image.capture, image.tile))
            &&& file.relative.len() > 0 && file.relative[0] != '/' ==> image.path == (match root {
                ImageRoot::Tiles => "tiles/"@,
                ImageRoot::DroneView => "drone-view/"@,
            }) + file.relative
        },
{
    reveal_strlit("tiles");
    reveal_strlit("tiles/");
    reveal_strlit("drone-view");
    reveal_strlit("drone-view/");
    assert("tiles/"@ =~= "tiles"@.push('/'));
    assert("drone-view/"@ =~= "drone-view"@.push('/'));
}

/// The images of files are those of the front and then those of the back: none is lost, none is
/// added, and none changes its place.
pub proof fn law_source_images(root: ImageRoot, front: Seq<SourceView>, back: Seq<SourceView>)
    ensures
        source_images(root, front + back) == source_images(root, front) + source_images(root, back),
        forall|file: SourceView| #[trigger]
            source_images(root, seq![file]) == (match source_image(root, file) {
                Some(image) => seq![image],
                None => Seq::<TileView>::empty(),
            }),
    decreases back.len(),
{
    if back.len() == 0 {
        assert(front + back =~= front);
        assert(source_images(root, front) + source_images(root, back) =~= source_images(
            root,
            front,
        ));
    } else {
        law_source_images(root, front, back.drop_last());
        assert((front + back).drop_last() =~= front + back.drop_last());
        assert((front + back).last() == back.last());
        assert(source_images(root, front + back) =~= source_images(root, front) + source_images(
            root,
            back,
        ));
    }
    assert forall|file: SourceView| #[trigger]
        source_images(root, seq![file]) == (match source_image(root, file) {
            Some(image) => seq![image],
            None => Seq::<TileView>::empty(),
        }) by {
        assert(seq![file].drop_last() =~= Seq::<SourceView>::empty());
        assert(source_images(root, Seq::<SourceView>::empty()) =~= Seq::<TileView>::empty());
    }
}

/// How it is reported that there is nothing to prepare, with the directory of tiles.
pub proof fn law_discover_reports(out: Seq<char>)
    requires
        out.len() > 0,
        out.last() != '/',
    ensures
        DiscoverError::NoDirectory.report(out) == "tile directory not found: "@ + (out + "/tiles"@),
        DiscoverError::NoTiles.report(out) == "no valid tiles found under "@ + (out + "/tiles"@),
{
    reveal_strlit("tiles");
    reveal_strlit("/tiles");
    assert(joined(out, "tiles"@) =~= out + "/tiles"@);
}

/// The extension of a path is that of its last part; a path without parts and one that ends with
/// the way up have none.
pub proof fn law_path_extensions(path: Seq<char>)
    ensures
        path_parts(path).len() == 0 ==> path_extension(path) is None,
        path_parts(path).len() > 0 && path_parts(path).last() == seq!['.', '.'] ==> path_extension(
            path,
        ) is None,
        path_parts(path).len() > 0 && path_parts(path).last() != seq!['.', '.'] ==> path_extension(
            path,
        ) == extension(path_parts(path).last()),
{
    reveal_strlit("..");
    assert(".."@ =~= seq!['.', '.']);
}

/// A path of fewer parts than three or more than four names no tile, and one names a tile only
/// where its last three parts are numbers, the last without its extension.
pub proof fn law_other_layouts(relative: Seq<char>)
    ensures
        ({
            let parts = path_parts(relative);
            let n = parts.len() as int;
            &&& n < 3 || n > 4 ==> image_place(relative) is None
            &&& image_place(relative) matches Some((capture, tile)) ==> {
                &&& tile.z <= 30
                &&& unsigned_value(parts[n - 3], 4294967295) == Some(tile.z as nat)
                &&& unsigned_value(parts[n - 2], 4294967295) == Some(tile.x as nat)
                &&& unsigned_value(stem(parts[n - 1]), 4294967295) == Some(tile.y as nat)
                &&& n == 4 ==> capture == parts[0]
                &&& n == 3 ==> capture == "default"@
            }
        }),
{
}

/// Files in order are the same files, and of any two of them the later does not come first by its
/// path.
pub proof fn law_arranged_files(files: Seq<SourceView>, order: Seq<SourceView>, i: int, j: int)
    requires
        arranged(files, order),
        0 <= i < j < order.len(),
    ensures
        order.len() == files.len(),
        order.to_multiset() == files.to_multiset(),
        path_parts(order[i].relative) != path_parts(order[j].relative) ==> path_before(
            order[i].relative,
            order[j].relative,
        ),
{
    lemma_path_order(order[i].relative, order[j].relative);
    assert(!path_before(order[j].relative, order[i].relative));
    order.to_multiset_ensures();
    files.to_multiset_ensures();
}

} // verus!
