//! The command line: which command it names, and what its arguments mean.
use crate::double::{Double, MINUS_INFINITY, PLUS_INFINITY, highest, lowest};
use crate::download::DownloadProgress;
use crate::options::PrepareOptions;
use crate::polygon::{law_box_around_polygon, north_west};
use crate::text::{
    decimal, is_digit, law_decimal_round_trip, lemma_decimal_value, lemma_split_joined,
    lemma_split_single, parse_unsigned, push_decimal, same_text, split, split_text, texts,
    unsigned_value, without_plus,
};
use crate::tile::{Coordinate, MAX_ZOOM, SelectionProgress};
use vstd::prelude::*;
use vstd::string::StringExecFns;

verus! {

/// What the program is asked to do.
#[derive(Debug, Clone, Copy, PartialEq, Eq, Structural)]
pub enum Command {
    Help,
    Version,
    Demo,
    Render,
    Validate,
    /// Download tiles, prepare a dataset, or both.
    Download,
}

/// The command that the first argument names.
pub open spec fn command_of(first: Option<Seq<char>>) -> Command {
    match first {
        None => Command::Help,
        Some(word) => if word == "-v"@ || word == "--version"@ {
            Command::Version
        } else if word == "demo"@ {
            Command::Demo
        } else if word == "render"@ {
            Command::Render
        } else if word == "validate"@ {
            Command::Validate
        } else {
            Command::Download
        },
    }
}

/// The command that the first argument names.
pub fn choose_command(first: Option<&str>) -> (command: Command)
    ensures
        command == command_of(match first {
            Some(word) => Some(word@),
            None => None,
        }),
{
    match first {
        None => Command::Help,
        Some(word) => {
            if same_text(word, "-v") || same_text(word, "--version") {
                Command::Version
            } else if same_text(word, "demo") {
                Command::Demo
            } else if same_text(word, "render") {
                Command::Render
            } else if same_text(word, "validate") {
                Command::Validate
            } else {
                Command::Download
            }
        },
    }
}

/// Which arguments that select tiles were given.
#[derive(Debug, Clone, Copy, PartialEq, Eq, Structural)]
pub struct SelectionArgs {
    pub lat: bool,
    pub lon: bool,
    pub bottom_right_lat: bool,
    pub bottom_right_lon: bool,
    pub polygon: bool,
    pub geojson: bool,
}

/// Whether tiles are to be downloaded: always, but for a preparation without any argument that
/// selects tiles.
pub fn should_download(prepare: bool, given: &SelectionArgs) -> (answer: bool)
    ensures
        answer == (!prepare || given.lat || given.lon || given.bottom_right_lat
            || given.bottom_right_lon || given.polygon || given.geojson),
{
    !prepare || given.lat || given.lon || given.bottom_right_lat || given.bottom_right_lon
        || given.polygon || given.geojson
}

/// Where a selection starts: the given point, or else the north west corner of the polygon.
pub open spec fn origin(
    lat: Option<Double>,
    lon: Option<Double>,
    polygon: Seq<Coordinate>,
) -> Option<Coordinate> {
    match (lat, lon) {
        (Some(lat), Some(lon)) => Some(Coordinate { lon, lat }),
        _ => if polygon.len() > 0 {
            Some(
                Coordinate {
                    lon: lowest(polygon.map_values(|point: Coordinate| point.lon)),
                    lat: highest(polygon.map_values(|point: Coordinate| point.lat)),
                },
            )
        } else {
            None
        },
    }
}

/// The report of a selection that starts nowhere.
pub const NO_ORIGIN: &'static str =
    "geodot requires -x/--lon and -y/--lat for grid or rectangle downloads";

/// Finds where a selection starts.
pub fn selection_origin(
    lat: Option<Double>,
    lon: Option<Double>,
    polygon: &[Coordinate],
) -> (result: Result<Coordinate, String>)
    ensures
        match origin(lat, lon, polygon@) {
            Some(point) => result == Ok::<Coordinate, String>(point),
            None => result matches Err(text) && text@ == NO_ORIGIN@,
        },
{
    if let (Some(lat), Some(lon)) = (lat, lon) {
        return Ok(Coordinate { lon, lat });
    }
    if polygon.len() == 0 {
        return Err(NO_ORIGIN.to_owned());
    }
    let ghost lats = polygon@.map_values(|point: Coordinate| point.lat);
    let ghost lons = polygon@.map_values(|point: Coordinate| point.lon);
    let mut top = Double { bits: MINUS_INFINITY };
    let mut left = Double { bits: PLUS_INFINITY };
    let mut i: usize = 0;
    while i < polygon.len()
        invariant
            0 <= i <= polygon@.len(),
            lats == polygon@.map_values(|point: Coordinate| point.lat),
            lons == polygon@.map_values(|point: Coordinate| point.lon),
            top == highest(lats.take(i as int)),
            left == lowest(lons.take(i as int)),
        decreases polygon@.len() - i,
    {
        proof {
            assert(lats.take(i + 1).drop_last() == lats.take(i as int));
            assert(lons.take(i + 1).drop_last() == lons.take(i as int));
        }
        top = top.max_with(polygon[i].lat);
        left = left.min_with(polygon[i].lon);
        i = i + 1;
    }
    proof {
        assert(lats.take(i as int) == lats);
        assert(lons.take(i as int) == lons);
    }
    Ok(Coordinate { lon: left, lat: top })
}

/// Whether the progress of a selection is to be reported. `recent` tells whether the last report is
/// less than a second old.
pub fn selection_report_due(progress: &SelectionProgress, recent: bool) -> (answer: bool)
    ensures
        answer == (progress.total == 0 || !recent),
{
    progress.total == 0 || !recent
}

/// Whether the progress of a download is to be reported. `recent` tells whether the last report is
/// less than a second old.
pub fn download_report_due(progress: &DownloadProgress, total: usize, recent: bool) -> (answer: bool)
    ensures
        answer == (progress.completed == total || !recent),
{
    progress.completed == total || !recent
}

/// What is wrong with a text that should denote a number from 1 to `max`.
pub open spec fn number_fault(text: Seq<char>, max: nat) -> Option<Seq<char>> {
    match unsigned_value(text, max) {
        None => Some("invalid integer: "@ + text),
        Some(n) => if n == 0 {
            Some("must be at least 1"@)
        } else {
            None
        },
    }
}

fn parse_positive(value: &str, max: u64) -> (result: Result<u64, String>)
    ensures
        match number_fault(value@, max as nat) {
            Some(fault) => result matches Err(text) && text@ == fault,
            None => result matches Ok(n) && unsigned_value(value@, max as nat) == Some(n as nat),
        },
{
    match parse_unsigned(value, max) {
        None => {
            let mut text = "invalid integer: ".to_owned();
            text.append(value);
            Err(text)
        },
        Some(n) => {
            if n == 0 {
                Err("must be at least 1".to_owned())
            } else {
                Ok(n)
            }
        },
    }
}

/// Reads a number of at least 1 that fits in 32 bits.
pub fn parse_positive_u32(value: &str) -> (result: Result<u32, String>)
    ensures
        match number_fault(value@, u32::MAX as nat) {
            Some(fault) => result matches Err(text) && text@ == fault,
            None => result matches Ok(n) && unsigned_value(value@, u32::MAX as nat) == Some(
                n as nat,
            ),
        },
{
    match parse_positive(value, u32::MAX as u64) {
        Ok(n) => Ok(n as u32),
        Err(text) => Err(text),
    }
}

/// Reads a number of at least 1 that fits in a machine word.
pub fn parse_positive_usize(value: &str) -> (result: Result<usize, String>)
    ensures
        match number_fault(value@, usize::MAX as nat) {
            Some(fault) => result matches Err(text) && text@ == fault,
            None => result matches Ok(n) && unsigned_value(value@, usize::MAX as nat) == Some(
                n as nat,
            ),
        },
{
    match parse_positive(value, usize::MAX as u64) {
        Ok(n) => Ok(n as usize),
        Err(text) => Err(text),
    }
}

/// Reads a number of at least 1 that fits in 16 bits.
pub fn parse_positive_u16(value: &str) -> (result: Result<u16, String>)
    ensures
        match number_fault(value@, u16::MAX as nat) {
            Some(fault) => result matches Err(text) && text@ == fault,
            None => result matches Ok(n) && unsigned_value(value@, u16::MAX as nat) == Some(
                n as nat,
            ),
        },
{
    match parse_positive(value, u16::MAX as u64) {
        Ok(n) => Ok(n as u16),
        Err(text) => Err(text),
    }
}

/// What is wrong with a text that should denote a zoom level.
pub open spec fn zoom_fault(text: Seq<char>) -> Option<Seq<char>> {
    match unsigned_value(text, u32::MAX as nat) {
        None => Some("invalid integer: "@ + text),
        Some(n) => if n > MAX_ZOOM {
            Some("must be from 0 to "@ + decimal(MAX_ZOOM as nat))
        } else {
            None
        },
    }
}

/// Reads a zoom level.
pub fn parse_zoom(value: &str) -> (result: Result<u32, String>)
    ensures
        match zoom_fault(value@) {
            Some(fault) => result matches Err(text) && text@ == fault,
            None => result matches Ok(n) && unsigned_value(value@, u32::MAX as nat) == Some(
                n as nat,
            ),
        },
{
    match parse_unsigned(value, u32::MAX as u64) {
        None => {
            let mut text = "invalid integer: ".to_owned();
            text.append(value);
            Err(text)
        },
        Some(n) => {
            if n > MAX_ZOOM as u64 {
                let mut text = "must be from 0 to ".to_owned();
                push_decimal(&mut text, MAX_ZOOM as u64);
                Err(text)
            } else {
                Ok(n as u32)
            }
        },
    }
}

/// The numbers of a list, where all its pieces that are not empty denote one.
pub open spec fn listed_numbers(pieces: Seq<Seq<char>>) -> Option<Seq<u32>>
    decreases pieces.len(),
{
    if pieces.len() == 0 {
        Some(Seq::empty())
    } else {
        match listed_numbers(pieces.drop_last()) {
            None => None,
            Some(numbers) => if pieces.last().len() == 0 {
                Some(numbers)
            } else {
                match unsigned_value(pieces.last(), u32::MAX as nat) {
                    Some(n) => Some(numbers.push(n as u32)),
                    None => None,
                }
            },
        }
    }
}

proof fn lemma_listed_prefix(pieces: Seq<Seq<char>>, i: int)
    requires
        0 <= i <= pieces.len(),
        listed_numbers(pieces.take(i)) is None,
    ensures
        listed_numbers(pieces) is None,
    decreases pieces.len() - i,
{
    if i < pieces.len() {
        assert(pieces.take(i + 1).drop_last() == pieces.take(i));
        lemma_listed_prefix(pieces, i + 1);
    } else {
        assert(pieces.take(i) == pieces);
    }
}

/// Reads a list of numbers between commas. Empty pieces are passed over.
pub fn parse_u32_list(value: &str) -> (result: Result<Vec<u32>, String>)
    ensures
        match listed_numbers(split(value@, ',')) {
            None => result matches Err(text) && text@ == "invalid integer list: "@ + value@,
            Some(numbers) => if numbers.len() == 0 {
                result matches Err(text) && text@ == "must contain at least one integer"@
            } else {
                result matches Ok(list) && list@ == numbers
            },
        },
{
    let pieces = split_text(value, ',');
    let ghost views = texts(pieces@);
    let mut numbers: Vec<u32> = Vec::new();
    let mut i: usize = 0;
    while i < pieces.len()
        invariant
            0 <= i <= pieces@.len(),
            views == texts(pieces@),
            views == split(value@, ','),
            listed_numbers(views.take(i as int)) == Some(numbers@),
        decreases pieces@.len() - i,
    {
        assert(views.take(i + 1).drop_last() == views.take(i as int));
        assert(views[i as int] == pieces@[i as int]@);
        if pieces[i].as_str().unicode_len() > 0 {
            match parse_unsigned(pieces[i].as_str(), u32::MAX as u64) {
                Some(n) => {
                    numbers.push(n as u32);
                },
                None => {
                    proof {
                        lemma_listed_prefix(views, i + 1);
                    }
                    let mut text = "invalid integer list: ".to_owned();
                    text.append(value);
                    return Err(text);
                },
            }
        }
        i = i + 1;
    }
    assert(views.take(i as int) == views);
    if numbers.len() == 0 {
        return Err("must contain at least one integer".to_owned());
    }
    Ok(numbers)
}

/// A list of numbers as it is written: in decimal, with commas between them.
pub open spec fn number_list(numbers: Seq<u32>) -> Seq<char>
    decreases numbers.len(),
{
    if numbers.len() == 0 {
        Seq::empty()
    } else if numbers.len() == 1 {
        decimal(numbers[0] as nat)
    } else {
        number_list(numbers.drop_last()).push(',') + decimal(numbers.last() as nat)
    }
}

/// A written list of numbers reads back as the same numbers.
pub proof fn law_number_list_reads_back(numbers: Seq<u32>)
    requires
        numbers.len() > 0,
    ensures
        listed_numbers(split(number_list(numbers), ',')) == Some(numbers),
    decreases numbers.len(),
{
    let front = numbers.drop_last();
    let last = decimal(numbers.last() as nat);
    lemma_decimal_value(numbers.last() as nat);
    law_decimal_round_trip(numbers.last() as nat, u32::MAX as nat);
    assert(!last.contains(',')) by {
        if last.contains(',') {
            let i = choose|i: int| 0 <= i < last.len() && last[i] == ',';
            assert(is_digit(last[i]));
        }
    }
    if numbers.len() == 1 {
        lemma_split_single(last, ',');
        let pieces = seq![last];
        assert(pieces.drop_last() =~= Seq::<Seq<char>>::empty());
        assert(listed_numbers(pieces.drop_last()) == Some(Seq::<u32>::empty()));
        assert(Seq::<u32>::empty().push(numbers[0]) =~= numbers);
    } else {
        law_number_list_reads_back(front);
        lemma_split_joined(number_list(front), last, ',');
        let pieces = split(number_list(front), ',').push(last);
        assert(pieces.drop_last() =~= split(number_list(front), ','));
        assert(front.push(numbers.last()) =~= numbers);
    }
}

/// The numbers of a list argument, or the default where it is not given.
pub open spec fn list_or_default(value: Option<Seq<char>>, default: Seq<u32>) -> Result<
    Seq<u32>,
    Seq<char>,
> {
    match value {
        None => Ok(default),
        Some(text) => match listed_numbers(split(text, ',')) {
            None => Err("invalid integer list: "@ + text),
            Some(numbers) => if numbers.len() == 0 {
                Err("must contain at least one integer"@)
            } else {
                Ok(numbers)
            },
        },
    }
}

/// Makes the options of a preparation of the arguments. Sizes that are given replace the default
/// ones and leave out the automatic one.
pub fn prepare_options(
    out: String,
    patch_sizes: Option<&str>,
    stride: u32,
    rotations: Option<&str>,
) -> (result: Result<PrepareOptions, String>)
    ensures
        ({
            let sizes = list_or_default(
                match patch_sizes {
                    Some(text) => Some(text@),
                    None => None,
                },
                seq![1u32, 2, 4],
            );
            let turns = list_or_default(
                match rotations {
                    Some(text) => Some(text@),
                    None => None,
                },
                seq![0u32, 45, 90, 135, 180, 225, 270, 315],
            );
            match (sizes, turns) {
                (Err(fault), _) => result matches Err(text) && text@ == fault,
                (Ok(_), Err(fault)) => result matches Err(text) && text@ == fault,
                (Ok(sizes), Ok(turns)) => {
                    &&& result matches Ok(options)
                    &&& options.out@ == out@
                    &&& options.patch_sizes@ == sizes
                    &&& options.stride == stride
                    &&& options.rotations@ == turns
                    &&& options.auto400m == (patch_sizes is None)
                },
            }
        }),
{
    let defaults = PrepareOptions::default();
    let sizes = match patch_sizes {
        None => defaults.patch_sizes,
        Some(text) => match parse_u32_list(text) {
            Ok(numbers) => numbers,
            Err(error) => {
                return Err(error);
            },
        },
    };
    let turns = match rotations {
        None => defaults.rotations,
        Some(text) => match parse_u32_list(text) {
            Ok(numbers) => numbers,
            Err(error) => {
                return Err(error);
            },
        },
    };
    Ok(
        PrepareOptions {
            out,
            patch_sizes: sizes,
            stride,
            rotations: turns,
            auto400m: patch_sizes.is_none(),
        },
    )
}

/// Takes a number that was read from a text, where it could be read and is finite.
pub fn parse_finite_f64(value: &str, number: Option<Double>) -> (result: Result<Double, String>)
    ensures
        match number {
            None => result matches Err(text) && text@ == "invalid number: "@ + value@,
            Some(d) => if d.finite() {
                result == Ok::<Double, String>(d)
            } else {
                result matches Err(text) && text@ == "must be a finite number"@
            },
        },
{
    match number {
        None => {
            let mut text = "invalid number: ".to_owned();
            text.append(value);
            Err(text)
        },
        Some(d) => {
            if d.is_finite() {
                Ok(d)
            } else {
                Err("must be a finite number".to_owned())
            }
        },
    }
}

/// The place of the first comma, or the length of the text where there is none.
pub open spec fn first_comma(text: Seq<char>) -> int
    decreases text.len(),
{
    if text.len() == 0 || text[0] == ',' {
        0
    } else {
        1 + first_comma(text.skip(1))
    }
}

/// The texts before and behind the first comma.
pub open spec fn pair_texts(text: Seq<char>) -> Option<(Seq<char>, Seq<char>)> {
    let at = first_comma(text);
    if at < text.len() {
        Some((text.take(at), text.skip(at + 1)))
    } else {
        None
    }
}

/// The texts of a longitude and a latitude.
#[derive(Debug)]
pub struct PointText {
    pub lon: String,
    pub lat: String,
}

fn split_pair(text: &str) -> (pair: Option<PointText>)
    ensures
        match pair {
            Some(found) => pair_texts(text@) == Some((found.lon@, found.lat@)),
            None => pair_texts(text@) is None,
        },
{
    let count: usize = text.unicode_len();
    let mut at: usize = 0;
    assert(text@.skip(0) == text@);
    while at < count && text.get_char(at) != ','
        invariant
            0 <= at <= count,
            count == text@.len(),
            first_comma(text@) == at + first_comma(text@.skip(at as int)),
        decreases count - at,
    {
        assert(text@.skip(at as int)[0] == text@[at as int]);
        assert(text@.skip(at as int).skip(1) == text@.skip(at + 1));
        at = at + 1;
    }
    if at == count {
        assert(text@.skip(at as int).len() == 0);
        return None;
    }
    assert(text@.skip(at as int)[0] == ',');
    let lon = text.substring_char(0, at).to_owned();
    let lat = text.substring_char(at + 1, count).to_owned();
    assert(lon@ =~= text@.take(at as int));
    assert(lat@ =~= text@.skip(at + 1));
    Some(PointText { lon, lat })
}

/// The texts of the points of a polygon, which stand between semicolons; none for a piece without a
/// comma.
pub fn polygon_texts(value: &str) -> (points: Vec<Option<PointText>>)
    ensures
        points@.len() == split(value@, ';').len(),
        forall|i: int|
            0 <= i < points@.len() ==> (match #[trigger] points@[i] {
                Some(found) => pair_texts(split(value@, ';')[i]) == Some((found.lon@, found.lat@)),
                None => pair_texts(split(value@, ';')[i]) is None,
            }),
{
    let pieces = split_text(value, ';');
    let ghost views = texts(pieces@);
    let mut points: Vec<Option<PointText>> = Vec::new();
    let mut i: usize = 0;
    while i < pieces.len()
        invariant
            0 <= i <= pieces@.len(),
            views == texts(pieces@),
            points@.len() == i,
            forall|k: int|
                0 <= k < i ==> (match #[trigger] points@[k] {
                    Some(found) => pair_texts(views[k]) == Some((found.lon@, found.lat@)),
                    None => pair_texts(views[k]) is None,
                }),
        decreases pieces@.len() - i,
    {
        assert(views[i as int] == pieces@[i as int]@);
        points.push(split_pair(pieces[i].as_str()));
        i = i + 1;
    }
    points
}

/// The numbers that were read from the texts of a point; none from a text that denotes none.
#[derive(Debug, Clone, Copy, PartialEq, Eq, Structural)]
pub struct PointNumbers {
    pub lon: Option<Double>,
    pub lat: Option<Double>,
}

/// What is wrong with one point of a polygon.
pub open spec fn point_fault(piece: Seq<char>, numbers: PointNumbers) -> Option<Seq<char>> {
    match pair_texts(piece) {
        None => Some("polygon points must be lon,lat pairs"@),
        Some((lon, lat)) => if numbers.lon is None {
            Some("invalid longitude: "@ + lon)
        } else if numbers.lat is None {
            Some("invalid latitude: "@ + lat)
        } else {
            None
        },
    }
}

/// What is wrong with the first point of a polygon that has a fault, from number `i` on.
pub open spec fn first_point_fault(
    pieces: Seq<Seq<char>>,
    numbers: Seq<PointNumbers>,
    i: int,
) -> Option<Seq<char>>
    decreases pieces.len() - i,
{
    if i < 0 || i >= pieces.len() {
        None
    } else if point_fault(pieces[i], numbers[i]) is Some {
        point_fault(pieces[i], numbers[i])
    } else {
        first_point_fault(pieces, numbers, i + 1)
    }
}

/// The points that the numbers denote.
pub open spec fn points_read(numbers: Seq<PointNumbers>) -> Seq<Coordinate> {
    numbers.map_values(|n: PointNumbers| Coordinate { lon: n.lon->0, lat: n.lat->0 })
}

/// The points of a polygon, or what is wrong with its text.
pub open spec fn polygon_read(value: Seq<char>, numbers: Seq<PointNumbers>) -> Result<
    Seq<Coordinate>,
    Seq<char>,
> {
    match first_point_fault(split(value, ';'), numbers, 0) {
        Some(fault) => Err(fault),
        None => {
            let points = points_read(numbers);
            if points.len() < 3 {
                Err("polygon requires at least three lon,lat pairs"@)
            } else if exists|i: int|
                0 <= i < points.len() && !((#[trigger] points[i]).lon.finite()
                    && points[i].lat.finite()) {
                Err("polygon coordinates must be finite numbers"@)
            } else {
                Ok(points)
            }
        },
    }
}

/// Reads a polygon. `numbers` holds what was read from the texts of its points, in order.
pub fn parse_polygon(value: &str, numbers: &[PointNumbers]) -> (result: Result<
    Vec<Coordinate>,
    String,
>)
    requires
        numbers@.len() == split(value@, ';').len(),
    ensures
        match polygon_read(value@, numbers@) {
            Ok(points) => result matches Ok(found) && found@ == points,
            Err(fault) => result matches Err(text) && text@ == fault,
        },
{
    let pieces = split_text(value, ';');
    let ghost views = texts(pieces@);
    let mut points: Vec<Coordinate> = Vec::new();
    let mut i: usize = 0;
    while i < pieces.len()
        invariant
            0 <= i <= pieces@.len(),
            views == texts(pieces@),
            views == split(value@, ';'),
            numbers@.len() == views.len(),
            first_point_fault(views, numbers@, 0) == first_point_fault(views, numbers@, i as int),
            points@ == points_read(numbers@).take(i as int),
        decreases pieces@.len() - i,
    {
        assert(views[i as int] == pieces@[i as int]@);
        let pair = match split_pair(pieces[i].as_str()) {
            Some(pair) => pair,
            None => {
                return Err("polygon points must be lon,lat pairs".to_owned());
            },
        };
        let lon = match numbers[i].lon {
            Some(lon) => lon,
            None => {
                let mut text = "invalid longitude: ".to_owned();
                text.append(pair.lon.as_str());
                return Err(text);
            },
        };
        let lat = match numbers[i].lat {
            Some(lat) => lat,
            None => {
                let mut text = "invalid latitude: ".to_owned();
                text.append(pair.lat.as_str());
                return Err(text);
            },
        };
        points.push(Coordinate { lon, lat });
        assert(points@ =~= points_read(numbers@).take(i + 1));
        i = i + 1;
    }
    assert(points_read(numbers@).take(i as int) == points_read(numbers@));
    if points.len() < 3 {
        return Err("polygon requires at least three lon,lat pairs".to_owned());
    }
    let mut k: usize = 0;
    while k < points.len()
        invariant
            0 <= k <= points@.len(),
            points@ == points_read(numbers@),
            points@.len() >= 3,
            first_point_fault(split(value@, ';'), numbers@, 0) is None,
            forall|n: int|
                0 <= n < k ==> (#[trigger] points@[n]).lon.finite() && points@[n].lat.finite(),
        decreases points@.len() - k,
    {
        if !points[k].lon.is_finite() || !points[k].lat.is_finite() {
            assert(!(points@[k as int].lon.finite() && points@[k as int].lat.finite()));
            return Err("polygon coordinates must be finite numbers".to_owned());
        }
        k = k + 1;
    }
    Ok(points)
}

/// A polygon that is accepted has at least three points, all of them finite.
pub proof fn law_accepted_polygon(value: Seq<char>, numbers: Seq<PointNumbers>)
    requires
        polygon_read(value, numbers) is Ok,
    ensures
        polygon_read(value, numbers)->Ok_0.len() >= 3,
        forall|i: int|
            0 <= i < polygon_read(value, numbers)->Ok_0.len() ==> (
            #[trigger] polygon_read(value, numbers)->Ok_0[i]).lon.finite() && polygon_read(
                value,
                numbers,
            )->Ok_0[i].lat.finite(),
{
}

/// The words that name a command; any other word is taken for an argument of a download.
pub proof fn law_command_words(word: Seq<char>)
    ensures
        command_of(None) == Command::Help,
        command_of(Some(word)) == Command::Version <==> word == "-v"@ || word == "--version"@,
        command_of(Some(word)) == Command::Demo <==> word == seq!['d', 'e', 'm', 'o'],
        command_of(Some(word)) == Command::Render <==> word == seq!['r', 'e', 'n', 'd', 'e', 'r'],
        command_of(Some(word)) == Command::Validate <==> word == "validate"@,
        command_of(Some(word)) != Command::Help,
{
    reveal_strlit("-v");
    reveal_strlit("--version");
    reveal_strlit("demo");
    reveal_strlit("render");
    reveal_strlit("validate");
    assert("demo"@ =~= seq!['d', 'e', 'm', 'o']);
    assert("render"@ =~= seq!['r', 'e', 'n', 'd', 'e', 'r']);
    assert("-v"@.len() == 2 && "--version"@.len() == 9 && "demo"@.len() == 4);
    assert("render"@.len() == 6 && "validate"@.len() == 8);
}

/// A selection starts at the given point; without one it starts at a point that no vertex lies west
/// or north of, and nowhere where there is no polygon either.
pub proof fn law_where_a_selection_starts(
    lat: Option<Double>,
    lon: Option<Double>,
    polygon: Seq<Coordinate>,
)
    ensures
        lat is Some && lon is Some ==> (origin(lat, lon, polygon) matches Some(point) && Some(
            point.lat,
        ) == lat && Some(point.lon) == lon),
        (lat is None || lon is None) && polygon.len() == 0 ==> origin(lat, lon, polygon) is None,
        (lat is None || lon is None) && polygon.len() > 0 ==> (origin(lat, lon, polygon) matches Some(
            point,
        ) && forall|i: int|
            0 <= i < polygon.len() ==> !(#[trigger] polygon[i]).lon.below(point.lon)
                && !point.lat.below(polygon[i].lat)),
        (lat is None || lon is None) && polygon.len() > 0 && (forall|i: int|
            0 <= i < polygon.len() ==> (#[trigger] polygon[i]).lon.finite()
                && polygon[i].lat.finite()) ==> (origin(lat, lon, polygon) matches Some(point) && (
        exists|i: int| 0 <= i < polygon.len() && (#[trigger] polygon[i]).lon == point.lon) && (
        exists|i: int| 0 <= i < polygon.len() && (#[trigger] polygon[i]).lat == point.lat)),
{
    if lat is None || lon is None {
        if polygon.len() > 0 {
            law_box_around_polygon(polygon);
            assert(origin(lat, lon, polygon)->0.lon == north_west(polygon).lon);
            assert(origin(lat, lon, polygon)->0.lat == north_west(polygon).lat);
        }
    }
}

/// A written number is read as itself where it is at least one and at most the limit; zero is
/// refused as too low, and a larger number as no number.
pub proof fn law_positive_numbers(n: nat, max: nat)
    ensures
        1 <= n <= max ==> number_fault(decimal(n), max) is None && unsigned_value(decimal(n), max)
            == Some(n),
        n == 0 ==> number_fault(decimal(n), max) == Some("must be at least 1"@),
        n > max ==> number_fault(decimal(n), max) == Some("invalid integer: "@ + decimal(n)),
{
    lemma_decimal_value(n);
    assert(is_digit(decimal(n)[0]));
    if n <= max {
        law_decimal_round_trip(n, max);
    } else {
        assert(without_plus(decimal(n)) == decimal(n));
    }
}

/// A written zoom level is read as itself where it is at most thirty, and else refused.
pub proof fn law_zoom_levels(n: nat)
    requires
        n <= u32::MAX,
    ensures
        n <= 30 ==> zoom_fault(decimal(n)) is None && unsigned_value(decimal(n), u32::MAX as nat)
            == Some(n),
        n > 30 ==> zoom_fault(decimal(n)) == Some("must be from 0 to "@ + seq!['3', '0']),
{
    law_decimal_round_trip(n, u32::MAX as nat);
    reveal_with_fuel(decimal, 3);
    assert(decimal(30) =~= seq!['3', '0']);
}

/// A text that denotes no number is refused with the text itself.
pub proof fn law_no_numbers(text: Seq<char>, max: nat)
    requires
        unsigned_value(text, max) is None,
    ensures
        number_fault(text, max) == Some("invalid integer: "@ + text),
        max == u32::MAX ==> zoom_fault(text) == Some("invalid integer: "@ + text),
{
}

/// One more piece of a list adds its number at the end; an empty piece adds nothing, and one that
/// is no number spoils the list.
pub proof fn law_list_pieces(pieces: Seq<Seq<char>>, piece: Seq<char>)
    ensures
        listed_numbers(Seq::<Seq<char>>::empty()) == Some(Seq::<u32>::empty()),
        piece.len() == 0 ==> listed_numbers(pieces.push(piece)) == listed_numbers(pieces),
        listed_numbers(pieces) is None ==> listed_numbers(pieces.push(piece)) is None,
        piece.len() > 0 && unsigned_value(piece, 4294967295) is None ==> listed_numbers(
            pieces.push(piece),
        ) is None,
        piece.len() > 0 && unsigned_value(piece, 4294967295) is Some ==> (listed_numbers(
            pieces,
        ) matches Some(numbers) ==> listed_numbers(pieces.push(piece)) == Some(
            numbers.push(unsigned_value(piece, 4294967295)->0 as u32),
        )),
{
    assert(pieces.push(piece).drop_last() =~= pieces);
}

/// A list that is not given is the default; one that is given is read, refused with its text where
/// it is no list of numbers, and refused where it holds none.
pub proof fn law_lists_of_numbers(text: Seq<char>, default: Seq<u32>)
    ensures
        list_or_default(None, default) == Ok::<Seq<u32>, Seq<char>>(default),
        listed_numbers(split(text, ',')) is None ==> list_or_default(Some(text), default) == Err::<
            Seq<u32>,
            Seq<char>,
        >("invalid integer list: "@ + text),
        listed_numbers(split(text, ',')) matches Some(numbers) ==> list_or_default(
            Some(text),
            default,
        ) == (if numbers.len() > 0 {
            Ok::<Seq<u32>, Seq<char>>(numbers)
        } else {
            Err("must contain at least one integer"@)
        }),
{
}

/// A pair is parted at its first comma: what stands before it holds none, and with the comma between
/// them the two are the text. A text without a comma is no pair.
pub proof fn law_pairs(text: Seq<char>)
    ensures
        match pair_texts(text) {
            Some((lon, lat)) => text == lon + seq![','] + lat && !lon.contains(','),
            None => !text.contains(','),
        },
{
    lemma_first_comma(text);
    let at = first_comma(text);
    if at < text.len() {
        assert(text =~= text.take(at) + seq![','] + text.skip(at + 1));
        if text.take(at).contains(',') {
            let i = choose|i: int| 0 <= i < at && text.take(at)[i] == ',';
            assert(text[i] == ',');
        }
    }
}

proof fn lemma_first_comma(text: Seq<char>)
    ensures
        0 <= first_comma(text) <= text.len(),
        first_comma(text) < text.len() ==> text[first_comma(text)] == ',',
        forall|i: int| 0 <= i < first_comma(text) ==> #[trigger] text[i] != ',',
    decreases text.len(),
{
    if text.len() > 0 && text[0] != ',' {
        let rest = text.skip(1);
        lemma_first_comma(rest);
        assert forall|i: int| 0 <= i < first_comma(text) implies #[trigger] text[i] != ',' by {
            if i > 0 {
                assert(rest[i - 1] == text[i]);
            }
        }
    }
}

/// The points of a polygon are those of its pieces, in their order: the number before the comma is
/// the longitude and the one behind it the latitude.
pub proof fn law_points_of_a_polygon(value: Seq<char>, numbers: Seq<PointNumbers>)
    requires
        numbers.len() == split(value, ';').len(),
    ensures
        polygon_read(value, numbers) is Ok <==> {
            &&& numbers.len() >= 3
            &&& forall|i: int|
                0 <= i < numbers.len() ==> split(value, ';')[i].contains(',') && (
                #[trigger] numbers[i]).lon is Some && numbers[i].lat is Some
                    && numbers[i].lon->0.finite() && numbers[i].lat->0.finite()
        },
        polygon_read(value, numbers) matches Ok(points) ==> points.len() == numbers.len()
            && forall|i: int|
            0 <= i < numbers.len() ==> Some((#[trigger] points[i]).lon) == numbers[i].lon && Some(
                points[i].lat,
            ) == numbers[i].lat,
{
    let pieces = split(value, ';');
    lemma_no_point_fault(pieces, numbers, 0);
    let points = points_read(numbers);
    if polygon_read(value, numbers) is Ok {
        assert forall|i: int| 0 <= i < numbers.len() implies pieces[i].contains(',') && (
        #[trigger] numbers[i]).lon is Some && numbers[i].lat is Some && numbers[i].lon->0.finite()
            && numbers[i].lat->0.finite() by {
            assert(point_fault(pieces[i], numbers[i]) is None);
            law_pairs(pieces[i]);
            if !pieces[i].contains(',') {
                assert(pair_texts(pieces[i]) is None) by {
                    if let Some((lon, lat)) = pair_texts(pieces[i]) {
                        assert(pieces[i][lon.len() as int] == ',');
                    }
                }
            }
            assert(points[i].lon.finite() && points[i].lat.finite());
        }
    }
    if numbers.len() >= 3 && (forall|i: int|
        0 <= i < numbers.len() ==> pieces[i].contains(',') && (#[trigger] numbers[i]).lon is Some
            && numbers[i].lat is Some && numbers[i].lon->0.finite()
            && numbers[i].lat->0.finite()) {
        assert forall|i: int| 0 <= i < pieces.len() implies point_fault(
            #[trigger] pieces[i],
            numbers[i],
        ) is None by {
            assert(pieces[i].contains(',') && numbers[i].lon is Some);
            law_pairs(pieces[i]);
        }
        assert forall|i: int| 0 <= i < points.len() implies (#[trigger] points[i]).lon.finite()
            && points[i].lat.finite() by {
            assert(numbers[i].lon->0.finite());
        }
    }
}

proof fn lemma_no_point_fault(pieces: Seq<Seq<char>>, numbers: Seq<PointNumbers>, i: int)
    requires
        0 <= i <= pieces.len(),
    ensures
        first_point_fault(pieces, numbers, i) is None <==> forall|k: int|
            i <= k < pieces.len() ==> point_fault(#[trigger] pieces[k], numbers[k]) is None,
    decreases pieces.len() - i,
{
    if i < pieces.len() {
        lemma_no_point_fault(pieces, numbers, i + 1);
        if first_point_fault(pieces, numbers, i) is None {
            assert forall|k: int| i <= k < pieces.len() implies point_fault(
                #[trigger] pieces[k],
                numbers[k],
            ) is None by {
                if k > i {
                    assert(i + 1 <= k);
                }
            }
        }
    }
}

/// The first piece of a polygon that is no point decides the error: it has no comma, or its
/// longitude or else its latitude is no number.
pub proof fn law_first_bad_point(value: Seq<char>, numbers: Seq<PointNumbers>, k: int)
    requires
        numbers.len() == split(value, ';').len(),
        0 <= k < numbers.len(),
        forall|i: int|
            0 <= i < k ==> split(value, ';')[i].contains(',') && (#[trigger] numbers[i]).lon is Some
                && numbers[i].lat is Some,
    ensures
        ({
            let piece = split(value, ';')[k];
            let read = polygon_read(value, numbers);
            &&& !piece.contains(',') ==> read == Err::<Seq<Coordinate>, Seq<char>>(
                "polygon points must be lon,lat pairs"@,
            )
            &&& forall|lon: Seq<char>, lat: Seq<char>|
                piece == #[trigger] (lon.push(',') + lat) && !lon.contains(',') ==> {
                    &&& numbers[k].lon is None ==> read == Err::<Seq<Coordinate>, Seq<char>>(
                        "invalid longitude: "@ + lon,
                    )
                    &&& numbers[k].lon is Some && numbers[k].lat is None ==> read == Err::<
                        Seq<Coordinate>,
                        Seq<char>,
                    >("invalid latitude: "@ + lat)
                }
        }),
{
    let pieces = split(value, ';');
    let piece = pieces[k];
    lemma_fault_at(pieces, numbers, 0, k);
    law_pairs(piece);
    if !piece.contains(',') {
        if let Some((lon, lat)) = pair_texts(piece) {
            assert(piece[lon.len() as int] == ',');
        }
    }
    assert forall|lon: Seq<char>, lat: Seq<char>|
        piece == #[trigger] (lon.push(',') + lat) && !lon.contains(',') implies pair_texts(piece)
        == Some((lon, lat)) by {
        lemma_first_comma(piece);
        let at = first_comma(piece);
        let n = lon.len() as int;
        assert(piece[n] == ',');
        if at < n {
            assert(lon[at] == piece[at]);
        }
        assert(at == n);
        assert(piece.take(n) =~= lon);
        assert(piece.skip(n + 1) =~= lat);
    }
}

proof fn lemma_fault_at(pieces: Seq<Seq<char>>, numbers: Seq<PointNumbers>, i: int, k: int)
    requires
        numbers.len() == pieces.len(),
        0 <= i <= k < pieces.len(),
        forall|j: int|
            0 <= j < k ==> pieces[j].contains(',') && (#[trigger] numbers[j]).lon is Some
                && numbers[j].lat is Some,
    ensures
        first_point_fault(pieces, numbers, i) == first_point_fault(pieces, numbers, k),
    decreases k - i,
{
    if i < k {
        assert(pieces[i].contains(',') && numbers[i].lon is Some);
        law_pairs(pieces[i]);
        lemma_fault_at(pieces, numbers, i + 1, k);
    }
}

} // verus!
