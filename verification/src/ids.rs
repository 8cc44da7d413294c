//! Where images lie and under which names a dataset speaks of them.
use crate::text::{
    decimal, is_digit, lemma_decimal_injective, lemma_decimal_value, push_decimal,
};
use crate::tile::Tile;
use vstd::prelude::*;
use vstd::string::StringExecFns;

verus! {

/// A directory of source images.
#[derive(Debug, Clone, Copy, PartialEq, Eq, Structural)]
pub enum ImageRoot {
    /// Downloaded tiles, the reference imagery.
    Tiles,
    /// Drone images, the query imagery.
    DroneView,
}

impl ImageRoot {
    /// The name of the directory.
    pub open spec fn directory(self) -> Seq<char> {
        match self {
            ImageRoot::Tiles => "tiles"@,
            ImageRoot::DroneView => "drone-view"@,
        }
    }

    /// What the images of the directory are for.
    pub open spec fn purpose(self) -> Seq<char> {
        match self {
            ImageRoot::Tiles => "reference"@,
            ImageRoot::DroneView => "query"@,
        }
    }

    /// The name of the directory.
    pub fn name(self) -> (name: &'static str)
        ensures
            name@ == self.directory(),
    {
        match self {
            ImageRoot::Tiles => "tiles",
            ImageRoot::DroneView => "drone-view",
        }
    }

    /// What the images of the directory are for.
    pub fn role(self) -> (role: &'static str)
        ensures
            role@ == self.purpose(),
    {
        match self {
            ImageRoot::Tiles => "reference",
            ImageRoot::DroneView => "query",
        }
    }
}

/// A path followed by a further part: the part alone where it starts at the root, and otherwise the
/// two with one separator between them.
pub open spec fn joined(base: Seq<char>, part: Seq<char>) -> Seq<char> {
    if part.len() > 0 && part[0] == '/' {
        part
    } else if base.len() == 0 || base.last() == '/' {
        base + part
    } else {
        base.push('/') + part
    }
}

/// Joins a further part to a path.
pub fn join_path(base: &str, part: &str) -> (path: String)
    ensures
        path@ == joined(base@, part@),
{
    if part.unicode_len() > 0 && part.get_char(0) == '/' {
        return part.to_owned();
    }
    let mut path = base.to_owned();
    let count: usize = base.unicode_len();
    if count > 0 && base.get_char(count - 1) != '/' {
        path.push('/');
    }
    path.append(part);
    path
}

/// The file of a downloaded tile under an output directory.
pub open spec fn tile_file(out: Seq<char>, tile: Tile) -> Seq<char> {
    joined(
        joined(
            joined(joined(out, "tiles"@), decimal(tile.z as nat)),
            decimal(tile.x as nat),
        ),
        decimal(tile.y as nat) + ".jpg"@,
    )
}

/// The file of a downloaded tile under an output directory.
pub fn tile_path(out: &str, tile: Tile) -> (path: String)
    ensures
        path@ == tile_file(out@, tile),
{
    let mut z = String::new();
    push_decimal(&mut z, tile.z as u64);
    let mut x = String::new();
    push_decimal(&mut x, tile.x as u64);
    let mut y = String::new();
    push_decimal(&mut y, tile.y as u64);
    y.append(".jpg");
    assert(z@ == decimal(tile.z as nat));
    assert(x@ == decimal(tile.x as nat));
    assert(y@ == decimal(tile.y as nat) + ".jpg"@);
    let path = join_path(out, "tiles");
    let path = join_path(path.as_str(), z.as_str());
    let path = join_path(path.as_str(), x.as_str());
    join_path(path.as_str(), y.as_str())
}

/// The coordinates of a place as part of a name.
pub open spec fn place_name(z: u32, x: u32, y: u32) -> Seq<char> {
    "z"@ + decimal(z as nat) + "_x"@ + decimal(x as nat) + "_y"@ + decimal(y as nat)
}

/// The name of a place.
pub fn place_id(z: u32, x: u32, y: u32) -> (id: String)
    ensures
        id@ == place_name(z, x, y),
{
    let mut id = "z".to_owned();
    push_decimal(&mut id, z as u64);
    id.append("_x");
    push_decimal(&mut id, x as u64);
    id.append("_y");
    push_decimal(&mut id, y as u64);
    id
}

/// The part of a name that tells the source of an image.
pub open spec fn source_name(root: ImageRoot, capture: Seq<char>) -> Seq<char> {
    root.directory() + "_"@ + capture + "_z"@
}

/// The name of a source image.
pub open spec fn tile_name(root: ImageRoot, capture: Seq<char>, tile: Tile) -> Seq<char> {
    source_name(root, capture) + decimal(tile.z as nat) + "_x"@ + decimal(tile.x as nat) + "_y"@
        + decimal(tile.y as nat)
}

fn push_source(id: &mut String, root: ImageRoot, capture: &str)
    ensures
        final(id)@ == old(id)@ + source_name(root, capture@),
{
    id.append(root.name());
    id.append("_");
    id.append(capture);
    id.append("_z");
    assert(id@ =~= old(id)@ + source_name(root, capture@));
}

/// The name of a source image.
pub fn tile_id(root: ImageRoot, capture: &str, tile: Tile) -> (id: String)
    ensures
        id@ == tile_name(root, capture@, tile),
{
    let mut id = String::new();
    push_source(&mut id, root, capture);
    assert(id@ == source_name(root, capture@));
    push_decimal(&mut id, tile.z as u64);
    id.append("_x");
    push_decimal(&mut id, tile.x as u64);
    id.append("_y");
    push_decimal(&mut id, tile.y as u64);
    id
}

/// The name of the square of `size` by `size` tiles whose top left tile is `tile`.
pub open spec fn patch_name(root: ImageRoot, capture: Seq<char>, tile: Tile, size: u32) -> Seq<
    char,
> {
    source_name(root, capture) + decimal(tile.z as nat) + "_x"@ + decimal(tile.x as nat) + "-"@
        + decimal((tile.x + size - 1) as nat) + "_y"@ + decimal(tile.y as nat) + "-"@ + decimal(
        (tile.y + size - 1) as nat,
    ) + "_s"@ + decimal(size as nat)
}

/// The name of a patch.
pub fn patch_id(root: ImageRoot, capture: &str, tile: Tile, size: u32) -> (id: String)
    requires
        size >= 1,
    ensures
        id@ == patch_name(root, capture@, tile, size),
{
    let mut id = String::new();
    push_source(&mut id, root, capture);
    assert(id@ == source_name(root, capture@));
    push_decimal(&mut id, tile.z as u64);
    id.append("_x");
    push_decimal(&mut id, tile.x as u64);
    id.append("-");
    push_decimal(&mut id, tile.x as u64 + size as u64 - 1);
    id.append("_y");
    push_decimal(&mut id, tile.y as u64);
    id.append("-");
    push_decimal(&mut id, tile.y as u64 + size as u64 - 1);
    id.append("_s");
    push_decimal(&mut id, size as u64);
    id
}

/// The name of a patch under a rotation.
pub open spec fn variant_name(patch: Seq<char>, rotation: u32) -> Seq<char> {
    patch + "_r"@ + decimal(rotation as nat)
}

/// The name of a patch under a rotation.
pub fn variant_id(patch: &str, rotation: u32) -> (id: String)
    ensures
        id@ == variant_name(patch@, rotation),
{
    let mut id = patch.to_owned();
    id.append("_r");
    push_decimal(&mut id, rotation as u64);
    id
}

/// The name of the scale of a patch.
pub open spec fn scale_name(z: u32, size: u32) -> Seq<char> {
    "z"@ + decimal(z as nat) + "_"@ + decimal(size as nat) + "x"@ + decimal(size as nat)
}

/// The name of the scale of a patch.
pub fn scale_profile(z: u32, size: u32) -> (name: String)
    ensures
        name@ == scale_name(z, size),
{
    let mut name = "z".to_owned();
    push_decimal(&mut name, z as u64);
    name.append("_");
    push_decimal(&mut name, size as u64);
    name.append("x");
    push_decimal(&mut name, size as u64);
    name
}

/// Two texts that end in a mark that is no digit and a decimal number agree in the number and in
/// what stands before the mark.
pub proof fn lemma_trailing_number(
    a: Seq<char>,
    b: Seq<char>,
    mark: Seq<char>,
    m: nat,
    n: nat,
)
    requires
        mark.len() > 0,
        !is_digit(mark.last()),
        a + mark + decimal(m) == b + mark + decimal(n),
    ensures
        a == b,
        m == n,
{
    let left = a + mark + decimal(m);
    let right = b + mark + decimal(n);
    let i = (a.len() + mark.len() - 1) as int;
    let j = (b.len() + mark.len() - 1) as int;
    lemma_decimal_value(m);
    lemma_decimal_value(n);
    assert(left == right);
    assert((a + mark)[i] == mark.last());
    assert((b + mark)[j] == mark.last());
    assert(left[i] == mark.last());
    assert(right[j] == mark.last());
    if i < j {
        assert(j < left.len());
        assert(left[j] == decimal(m)[j - i - 1]);
        assert(is_digit(decimal(m)[j - i - 1]));
    }
    if j < i {
        assert(i < right.len());
        assert(right[i] == decimal(n)[i - j - 1]);
        assert(is_digit(decimal(n)[i - j - 1]));
    }
    assert(left.len() == right.len());
    assert(decimal(m) =~= left.skip(i + 1));
    assert(decimal(n) =~= right.skip(i + 1));
    lemma_decimal_injective(m, n);
    assert(a =~= left.take(a.len() as int));
    assert(b =~= right.take(a.len() as int));
}

proof fn lemma_source_name(r: ImageRoot, c: Seq<char>, s: ImageRoot, d: Seq<char>)
    requires
        source_name(r, c) == source_name(s, d),
    ensures
        r == s,
        c == d,
{
    reveal_strlit("tiles");
    reveal_strlit("drone-view");
    reveal_strlit("_");
    reveal_strlit("_z");
    let left = source_name(r, c);
    let right = source_name(s, d);
    assert(left[0] == r.directory()[0]);
    assert(right[0] == s.directory()[0]);
    assert("tiles"@[0] == 't');
    assert("drone-view"@[0] == 'd');
    assert(r == s);
    let start = (r.directory().len() + 1) as int;
    assert(c =~= left.subrange(start, left.len() - 2));
    assert(d =~= right.subrange(start, right.len() - 2));
}

/// A source image has its name alone: equal names mean the same directory, capture and tile.
pub proof fn law_tile_names_distinct(
    r: ImageRoot,
    c: Seq<char>,
    a: Tile,
    s: ImageRoot,
    d: Seq<char>,
    b: Tile,
)
    requires
        tile_name(r, c, a) == tile_name(s, d, b),
    ensures
        r == s,
        c == d,
        a == b,
{
    reveal_strlit("_x");
    reveal_strlit("_y");
    reveal_strlit("_z");
    lemma_trailing_number(
        source_name(r, c) + decimal(a.z as nat) + "_x"@ + decimal(a.x as nat),
        source_name(s, d) + decimal(b.z as nat) + "_x"@ + decimal(b.x as nat),
        "_y"@,
        a.y as nat,
        b.y as nat,
    );
    lemma_trailing_number(
        source_name(r, c) + decimal(a.z as nat),
        source_name(s, d) + decimal(b.z as nat),
        "_x"@,
        a.x as nat,
        b.x as nat,
    );
    let front = r.directory() + "_"@ + c;
    let back = s.directory() + "_"@ + d;
    assert(front + "_z"@ =~= source_name(r, c));
    assert(back + "_z"@ =~= source_name(s, d));
    lemma_trailing_number(front, back, "_z"@, a.z as nat, b.z as nat);
    lemma_source_name(r, c, s, d);
}

/// A place has its name alone.
pub proof fn law_place_names_distinct(z: u32, x: u32, y: u32, z2: u32, x2: u32, y2: u32)
    requires
        place_name(z, x, y) == place_name(z2, x2, y2),
    ensures
        z == z2,
        x == x2,
        y == y2,
{
    reveal_strlit("z");
    reveal_strlit("_x");
    reveal_strlit("_y");
    lemma_trailing_number(
        "z"@ + decimal(z as nat) + "_x"@ + decimal(x as nat),
        "z"@ + decimal(z2 as nat) + "_x"@ + decimal(x2 as nat),
        "_y"@,
        y as nat,
        y2 as nat,
    );
    lemma_trailing_number(
        "z"@ + decimal(z as nat),
        "z"@ + decimal(z2 as nat),
        "_x"@,
        x as nat,
        x2 as nat,
    );
    let none = Seq::<char>::empty();
    assert(none + "z"@ =~= "z"@);
    lemma_trailing_number(none, none, "z"@, z as nat, z2 as nat);
}

/// A patch has its name alone: equal names mean the same directory, capture, top left tile and
/// size.
pub proof fn law_patch_names_distinct(
    r: ImageRoot,
    c: Seq<char>,
    a: Tile,
    m: u32,
    s: ImageRoot,
    d: Seq<char>,
    b: Tile,
    n: u32,
)
    requires
        patch_name(r, c, a, m) == patch_name(s, d, b, n),
        m >= 1,
        n >= 1,
    ensures
        r == s,
        c == d,
        a == b,
        m == n,
{
    reveal_strlit("_s");
    reveal_strlit("-");
    reveal_strlit("_x");
    reveal_strlit("_y");
    reveal_strlit("_z");
    let a1 = source_name(r, c);
    let b1 = source_name(s, d);
    let a2 = a1 + decimal(a.z as nat);
    let b2 = b1 + decimal(b.z as nat);
    let a3 = a2 + "_x"@ + decimal(a.x as nat);
    let b3 = b2 + "_x"@ + decimal(b.x as nat);
    let a4 = a3 + "-"@ + decimal((a.x + m - 1) as nat);
    let b4 = b3 + "-"@ + decimal((b.x + n - 1) as nat);
    let a5 = a4 + "_y"@ + decimal(a.y as nat);
    let b5 = b4 + "_y"@ + decimal(b.y as nat);
    let a6 = a5 + "-"@ + decimal((a.y + m - 1) as nat);
    let b6 = b5 + "-"@ + decimal((b.y + n - 1) as nat);
    lemma_trailing_number(a6, b6, "_s"@, m as nat, n as nat);
    lemma_trailing_number(a5, b5, "-"@, (a.y + m - 1) as nat, (b.y + n - 1) as nat);
    lemma_trailing_number(a4, b4, "_y"@, a.y as nat, b.y as nat);
    lemma_trailing_number(a3, b3, "-"@, (a.x + m - 1) as nat, (b.x + n - 1) as nat);
    lemma_trailing_number(a2, b2, "_x"@, a.x as nat, b.x as nat);
    let front = r.directory() + "_"@ + c;
    let back = s.directory() + "_"@ + d;
    assert(front + "_z"@ =~= a1);
    assert(back + "_z"@ =~= b1);
    lemma_trailing_number(front, back, "_z"@, a.z as nat, b.z as nat);
    lemma_source_name(r, c, s, d);
}

/// A variant has its name alone: equal names mean the same patch name and the same rotation.
pub proof fn law_variant_names_distinct(p: Seq<char>, a: u32, q: Seq<char>, b: u32)
    requires
        variant_name(p, a) == variant_name(q, b),
    ensures
        p == q,
        a == b,
{
    reveal_strlit("_r");
    lemma_trailing_number(p, q, "_r"@, a as nat, b as nat);
}

/// The names of the two directories and what their images are for.
pub proof fn law_roots()
    ensures
        ImageRoot::Tiles.directory() == seq!['t', 'i', 'l', 'e', 's'],
        ImageRoot::Tiles.purpose() == "reference"@,
        ImageRoot::DroneView.directory() == "drone-view"@,
        ImageRoot::DroneView.purpose() == seq!['q', 'u', 'e', 'r', 'y'],
{
    reveal_strlit("tiles");
    reveal_strlit("query");
}

/// A relative part follows its path behind exactly one slash, one that the path already ends in
/// included; a part that starts at the root stands alone, and so does one that follows nothing.
pub proof fn law_joined_paths(base: Seq<char>, part: Seq<char>)
    ensures
        part.len() > 0 && part[0] == '/' ==> joined(base, part) == part,
        (part.len() == 0 || part[0] != '/') ==> {
            &&& joined(Seq::<char>::empty(), part) == part
            &&& joined(base.push('/'), part) == base + seq!['/'] + part
            &&& base.len() > 0 && base.last() != '/' ==> joined(base, part) == base + seq!['/']
                + part
        },
{
    assert(base.push('/') =~= base + seq!['/']);
    assert(Seq::<char>::empty() + part =~= part);
}

/// A downloaded tile lies under `tiles`, then its zoom level, then its column, in a file that is
/// named after its row.
pub proof fn law_tile_file(out: Seq<char>, tile: Tile)
    ensures
        out.len() > 0 && out.last() != '/' ==> tile_file(out, tile) == out + "/tiles/"@ + decimal(
            tile.z as nat,
        ) + "/"@ + decimal(tile.x as nat) + "/"@ + decimal(tile.y as nat) + ".jpg"@,
        out.len() == 0 ==> tile_file(out, tile) == "tiles/"@ + decimal(tile.z as nat) + "/"@
            + decimal(tile.x as nat) + "/"@ + decimal(tile.y as nat) + ".jpg"@,
{
    reveal_strlit("/tiles/");
    reveal_strlit("tiles/");
    reveal_strlit("tiles");
    reveal_strlit("/");
    reveal_strlit(".jpg");
    let (z, x, y) = (decimal(tile.z as nat), decimal(tile.x as nat), decimal(tile.y as nat));
    lemma_decimal_value(tile.z as nat);
    lemma_decimal_value(tile.x as nat);
    lemma_decimal_value(tile.y as nat);
    assert(is_digit(z[0]) && is_digit(x[0]) && is_digit(y[0]));
    assert(is_digit(z[z.len() - 1]) && is_digit(x[x.len() - 1]));
    let a = joined(out, "tiles"@);
    let file = y + ".jpg"@;
    assert(file[0] == y[0]);
    if out.len() == 0 || out.last() != '/' {
        assert(a.last() == 's');
        let b = joined(a, z);
        assert(b.last() == z.last());
        let c = joined(b, x);
        assert(c.last() == x.last());
        assert(joined(c, file) =~= c.push('/') + file);
        if out.len() > 0 {
            assert(tile_file(out, tile) =~= out + "/tiles/"@ + z + "/"@ + x + "/"@ + y + ".jpg"@);
        } else {
            assert(tile_file(out, tile) =~= "tiles/"@ + z + "/"@ + x + "/"@ + y + ".jpg"@);
        }
    }
}

/// How names are written: a place by its zoom level, column and row; an image by its directory, its
/// capture and its place; a mosaic by the columns and rows from its first to its last tile and by
/// its size; a turned mosaic by the mosaic and the rotation; a scale by zoom level and size.
pub proof fn law_written_names(
    root: ImageRoot,
    capture: Seq<char>,
    tile: Tile,
    size: u32,
    rotation: u32,
)
    requires
        size >= 1,
    ensures
        place_name(tile.z, tile.x, tile.y) == seq!['z'] + decimal(tile.z as nat) + seq!['_', 'x']
            + decimal(tile.x as nat) + seq!['_', 'y'] + decimal(tile.y as nat),
        tile_name(root, capture, tile) == (match root {
            ImageRoot::Tiles => "tiles_"@,
            ImageRoot::DroneView => "drone-view_"@,
        }) + capture + seq!['_'] + place_name(tile.z, tile.x, tile.y),
        patch_name(root, capture, tile, size) == (match root {
            ImageRoot::Tiles => "tiles_"@,
            ImageRoot::DroneView => "drone-view_"@,
        }) + capture + seq!['_', 'z'] + decimal(tile.z as nat) + seq!['_', 'x'] + decimal(
            tile.x as nat,
        ) + seq!['-'] + decimal((tile.x + (size - 1)) as nat) + seq!['_', 'y'] + decimal(
            tile.y as nat,
        ) + seq!['-'] + decimal((tile.y + (size - 1)) as nat) + seq!['_', 's'] + decimal(
            size as nat,
        ),
        variant_name(capture, rotation) == capture + seq!['_', 'r'] + decimal(rotation as nat),
        scale_name(tile.z, size) == seq!['z'] + decimal(tile.z as nat) + seq!['_'] + decimal(
            size as nat,
        ) + seq!['x'] + decimal(size as nat),
{
    reveal_strlit("z");
    reveal_strlit("x");
    reveal_strlit("_");
    reveal_strlit("-");
    reveal_strlit("_x");
    reveal_strlit("_y");
    reveal_strlit("_z");
    reveal_strlit("_s");
    reveal_strlit("_r");
    reveal_strlit("tiles");
    reveal_strlit("tiles_");
    reveal_strlit("drone-view");
    reveal_strlit("drone-view_");
    assert("tiles_"@ =~= "tiles"@ + "_"@);
    assert("drone-view_"@ =~= "drone-view"@ + "_"@);
    assert("z"@ =~= seq!['z'] && "x"@ =~= seq!['x'] && "_"@ =~= seq!['_'] && "-"@ =~= seq!['-']);
    assert("_x"@ =~= seq!['_', 'x'] && "_y"@ =~= seq!['_', 'y'] && "_z"@ =~= seq!['_', 'z']);
    assert("_s"@ =~= seq!['_', 's'] && "_r"@ =~= seq!['_', 'r']);
    assert(seq!['_', 'z'] =~= seq!['_'] + seq!['z']);
    assert(tile_name(root, capture, tile) =~= root.directory() + "_"@ + capture + "_"@ + place_name(
        tile.z,
        tile.x,
        tile.y,
    ));
    assert(tile.x + size - 1 == tile.x + (size - 1));
}

} // verus!
