//! The answers of the server that shows the demo page.
use crate::discover::{extension_of, path_extension, tile_relative};
use crate::ids::{joined, tile_file};
use crate::image_header::{ImageFormat, image_header, law_png_size};
use crate::text::{
    chars_of, decimal, ends_with, is_digit, law_decimal_round_trip, law_split_joins_back,
    law_unsigned_texts, lemma_decimal_value, lemma_split_joined, lemma_split_single,
    parse_unsigned, push_decimal, same_text, split, split_text, starts_with, texts, trim_leading,
    unsigned_value, without_leading,
};
use crate::tile::Tile;
use vstd::prelude::*;
use vstd::string::StringExecFns;
use vstd::utf8::{decode_utf8, encode_utf8, valid_utf8};

verus! {

/// What `String::from_utf8_lossy` makes of some bytes.
pub uninterp spec fn lossy_text(bytes: Seq<u8>) -> Seq<char>;

/// `String::from_utf8_lossy`: the text depends on the bytes alone, and is what they encode where
/// they are UTF-8.
#[verifier::external_body]
fn text_from_bytes(bytes: &[u8]) -> (text: String)
    ensures
        text@ == lossy_text(bytes@),
        valid_utf8(bytes@) ==> text@ == decode_utf8(bytes@),
{
    String::from_utf8_lossy(bytes).into_owned()
}

/// The value of a hexadecimal digit.
pub open spec fn hex_digit(byte: u8) -> Option<int> {
    if 0x30 <= byte <= 0x39 {
        Some(byte - 0x30)
    } else if 0x41 <= byte <= 0x46 {
        Some(byte - 0x41 + 10)
    } else if 0x61 <= byte <= 0x66 {
        Some(byte - 0x61 + 10)
    } else {
        None
    }
}

/// The value of two bytes as a hexadecimal number: two digits, or a plus sign and one digit.
pub open spec fn hex_pair(high: u8, low: u8) -> Option<u8> {
    match (hex_digit(high), hex_digit(low)) {
        (Some(h), Some(l)) => Some((h * 16 + l) as u8),
        (None, Some(l)) => if high == 0x2b {
            Some(l as u8)
        } else {
            None
        },
        _ => None,
    }
}

/// The bytes that a percent-encoded text stands for, from place `i` on. A percent sign without a
/// hexadecimal number behind it stands for itself.
pub open spec fn unescaped(bytes: Seq<u8>, i: int) -> Seq<u8>
    decreases bytes.len() - i,
{
    if i < 0 || i >= bytes.len() {
        Seq::empty()
    } else if bytes[i] == 0x25 && i + 2 < bytes.len() && hex_pair(bytes[i + 1], bytes[i + 2]) is Some {
        seq![hex_pair(bytes[i + 1], bytes[i + 2])->0] + unescaped(bytes, i + 3)
    } else {
        seq![bytes[i]] + unescaped(bytes, i + 1)
    }
}

/// The text that a percent-encoded text stands for.
pub open spec fn percent_decoded(text: Seq<char>) -> Seq<char> {
    lossy_text(unescaped(encode_utf8(text), 0))
}

fn read_hex_digit(byte: u8) -> (digit: Option<u8>)
    ensures
        match digit {
            Some(d) => hex_digit(byte) == Some(d as int) && d < 16,
            None => hex_digit(byte) is None,
        },
{
    if 0x30 <= byte && byte <= 0x39 {
        Some(byte - 0x30)
    } else if 0x41 <= byte && byte <= 0x46 {
        Some(byte - 0x41 + 10)
    } else if 0x61 <= byte && byte <= 0x66 {
        Some(byte - 0x61 + 10)
    } else {
        None
    }
}

fn read_hex_pair(high: u8, low: u8) -> (byte: Option<u8>)
    ensures
        byte == hex_pair(high, low),
{
    match (read_hex_digit(high), read_hex_digit(low)) {
        (Some(h), Some(l)) => Some(h * 16 + l),
        (None, Some(l)) => {
            if high == 0x2b {
                Some(l)
            } else {
                None
            }
        },
        _ => None,
    }
}

/// The bytes that a percent-encoded row of bytes stands for.
pub fn unescape(bytes: &[u8]) -> (decoded: Vec<u8>)
    ensures
        decoded@ == unescaped(bytes@, 0),
{
    let mut decoded: Vec<u8> = Vec::new();
    let mut i: usize = 0;
    while i < bytes.len()
        invariant
            0 <= i <= bytes@.len(),
            decoded@ + unescaped(bytes@, i as int) == unescaped(bytes@, 0),
        decreases bytes@.len() - i,
    {
        let ghost before = decoded@;
        if bytes[i] == 0x25 && bytes.len() - i > 2 {
            if let Some(byte) = read_hex_pair(bytes[i + 1], bytes[i + 2]) {
                decoded.push(byte);
                assert(decoded@ + unescaped(bytes@, i + 3) =~= before + (seq![byte] + unescaped(
                    bytes@,
                    i + 3,
                )));
                i = i + 3;
                continue;
            }
        }
        decoded.push(bytes[i]);
        assert(decoded@ + unescaped(bytes@, i + 1) =~= before + (seq![bytes@[i as int]]
            + unescaped(bytes@, i + 1)));
        i = i + 1;
    }
    assert(decoded@ =~= unescaped(bytes@, 0));
    decoded
}

/// Decodes a percent-encoded text.
pub fn percent_decode(value: &str) -> (text: String)
    ensures
        text@ == percent_decoded(value@),
        valid_utf8(unescaped(encode_utf8(value@), 0)) ==> text@ == decode_utf8(
            unescaped(encode_utf8(value@), 0),
        ),
{
    let decoded = unescape(value.as_bytes());
    text_from_bytes(decoded.as_slice())
}

/// Bytes without a percent sign stand for themselves.
pub proof fn law_plain_bytes_stay(bytes: Seq<u8>, i: int)
    requires
        0 <= i <= bytes.len(),
        forall|k: int| i <= k < bytes.len() ==> bytes[k] != 0x25,
    ensures
        unescaped(bytes, i) == bytes.skip(i),
    decreases bytes.len() - i,
{
    if i < bytes.len() {
        law_plain_bytes_stay(bytes, i + 1);
        assert(seq![bytes[i]] + bytes.skip(i + 1) =~= bytes.skip(i));
    } else {
        assert(bytes.skip(i) =~= Seq::<u8>::empty());
    }
}

/// White space between the words of a text.
pub open spec fn is_space(c: char) -> bool {
    ('\t' <= c <= '\r') || c == ' ' || c == '\u{85}' || c == '\u{a0}' || c == '\u{1680}' || (
    '\u{2000}' <= c <= '\u{200a}') || c == '\u{2028}' || c == '\u{2029}' || c == '\u{202f}' || c
        == '\u{205f}' || c == '\u{3000}'
}

fn is_space_char(c: char) -> (answer: bool)
    ensures
        answer == is_space(c),
{
    ('\t' <= c && c <= '\r') || c == ' ' || c == '\u{85}' || c == '\u{a0}' || c == '\u{1680}' || (
    '\u{2000}' <= c && c <= '\u{200a}') || c == '\u{2028}' || c == '\u{2029}' || c == '\u{202f}'
        || c == '\u{205f}' || c == '\u{3000}'
}

/// The words of a text, and whether the last of them is still open at its end.
pub open spec fn words_so_far(text: Seq<char>) -> (Seq<Seq<char>>, bool)
    decreases text.len(),
{
    if text.len() == 0 {
        (Seq::empty(), false)
    } else {
        let (words, open) = words_so_far(text.drop_last());
        if is_space(text.last()) {
            (words, false)
        } else if open {
            (words.drop_last().push(words.last().push(text.last())), true)
        } else {
            (words.push(seq![text.last()]), true)
        }
    }
}

/// The words of a text: its longest pieces without white space.
pub open spec fn words(text: Seq<char>) -> Seq<Seq<char>> {
    words_so_far(text).0
}

proof fn lemma_open_word(text: Seq<char>)
    ensures
        words_so_far(text).1 ==> words_so_far(text).0.len() > 0,
    decreases text.len(),
{
    if text.len() > 0 {
        lemma_open_word(text.drop_last());
    }
}

fn split_words(text: &str) -> (pieces: Vec<String>)
    ensures
        texts(pieces@) == words(text@),
{
    let chars = chars_of(text);
    let mut pieces: Vec<String> = Vec::new();
    let mut current = String::new();
    let mut open = false;
    let mut i: usize = 0;
    assert(texts(pieces@) =~= Seq::<Seq<char>>::empty());
    while i < chars.len()
        invariant
            0 <= i <= chars@.len(),
            chars@ == text@,
            open == words_so_far(text@.take(i as int)).1,
            open ==> texts(pieces@).push(current@) == words(text@.take(i as int)),
            !open ==> texts(pieces@) == words(text@.take(i as int)) && current@
                == Seq::<char>::empty(),
        decreases chars@.len() - i,
    {
        let c = chars[i];
        let ghost before = texts(pieces@);
        let ghost word = current@;
        assert(text@.take(i + 1).drop_last() == text@.take(i as int));
        assert(before.push(word).drop_last() == before);
        if is_space_char(c) {
            if open {
                pieces.push(current);
                assert(texts(pieces@) =~= before.push(word));
                current = String::new();
                open = false;
            }
        } else {
            current.push(c);
            if !open {
                assert(current@ =~= seq![c]);
            }
            open = true;
        }
        i = i + 1;
    }
    assert(text@.take(i as int) == text@);
    if open {
        let ghost before = texts(pieces@);
        let ghost word = current@;
        pieces.push(current);
        assert(texts(pieces@) =~= before.push(word));
    }
    pieces
}

/// The path in the first line of a request: its second word, up to a question mark, or the root
/// where there is none.
pub open spec fn request_target(request: Seq<char>) -> Seq<char> {
    let line = words(split(request, '\n')[0]);
    if line.len() > 1 {
        split(line[1], '?')[0]
    } else {
        "/"@
    }
}

/// Reads the path in the first line of a request.
pub fn read_target(request: &str) -> (target: String)
    ensures
        target@ == request_target(request@),
{
    let lines = split_text(request, '\n');
    assert(texts(lines@)[0] == lines@[0]@);
    let line = split_words(lines[0].as_str());
    if line.len() > 1 {
        assert(texts(line@)[1] == line@[1]@);
        let pieces = split_text(line[1].as_str(), '?');
        assert(texts(pieces@)[0] == pieces@[0]@);
        return pieces[0].clone();
    }
    "/".to_owned()
}

/// A text that denotes a number of 32 bits.
pub open spec fn is_number(text: Seq<char>) -> bool {
    unsigned_value(text, u32::MAX as nat) is Some
}

/// A path of the form `z/x/y` or `z/x/y.extension`.
pub open spec fn tile_route(path: Seq<char>) -> bool {
    let parts = split(without_leading(path, '/'), '/');
    parts.len() == 3 && is_number(parts[0]) && is_number(parts[1]) && is_number(
        split(parts[2], '.')[0],
    )
}

/// Whether a path names a tile.
pub fn is_tile_route(path: &str) -> (answer: bool)
    ensures
        answer == tile_route(path@),
{
    let trimmed = trim_leading(path, '/');
    let parts = split_text(trimmed.as_str(), '/');
    if parts.len() != 3 {
        return false;
    }
    assert(texts(parts@)[0] == parts@[0]@);
    assert(texts(parts@)[1] == parts@[1]@);
    assert(texts(parts@)[2] == parts@[2]@);
    let pieces = split_text(parts[2].as_str(), '.');
    assert(texts(pieces@)[0] == pieces@[0]@);
    parse_unsigned(parts[0].as_str(), u32::MAX as u64).is_some() && parse_unsigned(
        parts[1].as_str(),
        u32::MAX as u64,
    ).is_some() && parse_unsigned(pieces[0].as_str(), u32::MAX as u64).is_some()
}

/// What a request is answered with.
#[derive(Debug)]
pub enum Route {
    /// A refusal.
    Forbidden,
    /// The file with this path below the directory that is served.
    File(String),
}

/// What an answer is.
pub enum RouteView {
    Forbidden,
    File(Seq<char>),
}

impl View for Route {
    type V = RouteView;

    open spec fn view(&self) -> RouteView {
        match self {
            Route::Forbidden => RouteView::Forbidden,
            Route::File(path) => RouteView::File(path@),
        }
    }
}

/// The file that a path names: the page for the root and for tiles, and otherwise the path itself.
pub open spec fn served_file(path: Seq<char>) -> Seq<char> {
    if path == "/"@ || tile_route(path) {
        "index.html"@
    } else {
        without_leading(path, '/')
    }
}

/// A path that leads up and may leave the directory that is served.
pub open spec fn leads_up(path: Seq<char>) -> bool {
    split(path, '/').contains(".."@)
}

/// What a request for a path is answered with.
pub open spec fn path_route(path: Seq<char>) -> RouteView {
    if leads_up(served_file(path)) {
        RouteView::Forbidden
    } else {
        RouteView::File(served_file(path))
    }
}

/// Decides what a request for a path is answered with.
pub fn route_path(path: &str) -> (route: Route)
    ensures
        route@ == path_route(path@),
{
    let relative = if same_text(path, "/") || is_tile_route(path) {
        "index.html".to_owned()
    } else {
        trim_leading(path, '/')
    };
    let parts = split_text(relative.as_str(), '/');
    let ghost views = texts(parts@);
    let mut i: usize = 0;
    while i < parts.len()
        invariant
            0 <= i <= parts@.len(),
            views == texts(parts@),
            views == split(relative@, '/'),
            relative@ == served_file(path@),
            forall|k: int| 0 <= k < i ==> views[k] != ".."@,
        decreases parts@.len() - i,
    {
        assert(views[i as int] == parts@[i as int]@);
        if same_text(parts[i].as_str(), "..") {
            return Route::Forbidden;
        }
        i = i + 1;
    }
    Route::File(relative)
}

/// What a request is answered with.
pub open spec fn request_route(request: Seq<u8>) -> RouteView {
    path_route(percent_decoded(request_target(lossy_text(request))))
}

/// Decides what a request, as it came over the network, is answered with.
pub fn route_request(request: &[u8]) -> (route: Route)
    ensures
        route@ == request_route(request@),
{
    let text = text_from_bytes(request);
    let target = read_target(text.as_str());
    let path = percent_decode(target.as_str());
    route_path(path.as_str())
}

/// What kind of contents a file has, by its extension.
pub open spec fn contents_kind(path: Seq<char>) -> Seq<char> {
    match path_extension(path) {
        Some(text) => if text == "html"@ {
            "text/html; charset=utf-8"@
        } else if text == "jpg"@ || text == "jpeg"@ {
            "image/jpeg"@
        } else if text == "json"@ {
            "application/json"@
        } else {
            "application/octet-stream"@
        },
        None => "application/octet-stream"@,
    }
}

/// What kind of contents a file has, by its extension.
pub fn content_type(path: &str) -> (kind: &'static str)
    ensures
        kind@ == contents_kind(path@),
{
    if let Some(text) = extension_of(path) {
        if same_text(text.as_str(), "html") {
            return "text/html; charset=utf-8";
        }
        if same_text(text.as_str(), "jpg") || same_text(text.as_str(), "jpeg") {
            return "image/jpeg";
        }
        if same_text(text.as_str(), "json") {
            return "application/json";
        }
    }
    "application/octet-stream"
}

/// An image of one transparent pixel.
pub const EMPTY_PNG: [u8; 70] = [
    0x89, 0x50, 0x4e, 0x47, 0x0d, 0x0a, 0x1a, 0x0a, 0x00, 0x00, 0x00, 0x0d, 0x49, 0x48, 0x44, 0x52,
    0x00, 0x00, 0x00, 0x01, 0x00, 0x00, 0x00, 0x01, 0x08, 0x06, 0x00, 0x00, 0x00, 0x1f, 0x15, 0xc4,
    0x89, 0x00, 0x00, 0x00, 0x0d, 0x49, 0x44, 0x41, 0x54, 0x78, 0xda, 0x63, 0x64, 0xf8, 0xcf, 0x50,
    0x0f, 0x00, 0x03, 0x86, 0x01, 0x80, 0x5a, 0x34, 0x7d, 0x6b, 0x00, 0x00, 0x00, 0x00, 0x49, 0x45,
    0x4e, 0x44, 0xae, 0x42, 0x60, 0x82,
];

/// What an answer says, and with what.
#[derive(Debug, Clone, Copy, PartialEq, Eq, Structural)]
pub enum Reply {
    /// The contents of the file.
    Contents,
    /// An image of one transparent pixel, in place of a tile that is not there.
    Blank,
    /// There is no such file.
    NotFound,
    /// The file may not be asked for.
    Forbidden,
}

/// The answer for a file. `readable` tells whether it is there and could be read.
pub open spec fn file_reply(path: Seq<char>, readable: bool) -> Reply {
    if readable {
        Reply::Contents
    } else if "tiles/"@.is_prefix_of(path) && ".jpg"@.is_suffix_of(path) {
        Reply::Blank
    } else {
        Reply::NotFound
    }
}

/// Decides the answer for a file.
pub fn reply_for_file(path: &str, readable: bool) -> (reply: Reply)
    ensures
        reply == file_reply(path@, readable),
{
    if readable {
        Reply::Contents
    } else if starts_with(path, "tiles/") && ends_with(path, ".jpg") {
        Reply::Blank
    } else {
        Reply::NotFound
    }
}

impl Reply {
    /// The status of the answer.
    pub open spec fn status_text(self) -> Seq<char> {
        match self {
            Reply::Contents => "200 OK"@,
            Reply::Blank => "200 OK"@,
            Reply::NotFound => "404 Not Found"@,
            Reply::Forbidden => "403 Forbidden"@,
        }
    }

    /// The kind of contents of the answer for a file.
    pub open spec fn kind_text(self, path: Seq<char>) -> Seq<char> {
        match self {
            Reply::Contents => contents_kind(path),
            Reply::Blank => "image/png"@,
            _ => "text/plain"@,
        }
    }

    /// The body of the answer for a file with the given contents.
    pub open spec fn body_bytes(self, contents: Seq<u8>) -> Seq<u8> {
        match self {
            Reply::Contents => contents,
            Reply::Blank => EMPTY_PNG@,
            Reply::NotFound => encode_utf8("Not found"@),
            Reply::Forbidden => encode_utf8("Forbidden"@),
        }
    }

    /// The status of the answer.
    pub fn status(self) -> (text: &'static str)
        ensures
            text@ == self.status_text(),
    {
        match self {
            Reply::Contents => "200 OK",
            Reply::Blank => "200 OK",
            Reply::NotFound => "404 Not Found",
            Reply::Forbidden => "403 Forbidden",
        }
    }

    /// The kind of contents of the answer for a file.
    pub fn kind(self, path: &str) -> (text: &'static str)
        ensures
            text@ == self.kind_text(path@),
    {
        match self {
            Reply::Contents => content_type(path),
            Reply::Blank => "image/png",
            _ => "text/plain",
        }
    }

    /// The body of the answer for a file with the given contents.
    pub fn body(self, contents: Vec<u8>) -> (bytes: Vec<u8>)
        ensures
            bytes@ == self.body_bytes(contents@),
    {
        match self {
            Reply::Contents => contents,
            Reply::Blank => {
                let pixel = EMPTY_PNG;
                copy_bytes(pixel.as_slice())
            },
            Reply::NotFound => copy_bytes("Not found".as_bytes()),
            Reply::Forbidden => copy_bytes("Forbidden".as_bytes()),
        }
    }
}

fn copy_bytes(bytes: &[u8]) -> (copy: Vec<u8>)
    ensures
        copy@ == bytes@,
{
    let mut copy: Vec<u8> = Vec::new();
    let mut i: usize = 0;
    while i < bytes.len()
        invariant
            0 <= i <= bytes@.len(),
            copy@ == bytes@.take(i as int),
        decreases bytes@.len() - i,
    {
        copy.push(bytes[i]);
        assert(bytes@.take(i + 1) =~= bytes@.take(i as int).push(bytes@[i as int]));
        i = i + 1;
    }
    assert(bytes@.take(i as int) == bytes@);
    copy
}

/// The lines of an answer before its body.
pub open spec fn answer_head(status: Seq<char>, kind: Seq<char>, length: nat) -> Seq<char> {
    "HTTP/1.1 "@ + status + "\r\nContent-Type: "@ + kind + "\r\nContent-Length: "@ + decimal(length)
        + "\r\nConnection: close\r\n\r\n"@
}

/// The lines of an answer before its body.
pub fn response_head(status: &str, kind: &str, length: usize) -> (head: String)
    ensures
        head@ == answer_head(status@, kind@, length as nat),
{
    let mut head = "HTTP/1.1 ".to_owned();
    head.append(status);
    head.append("\r\nContent-Type: ");
    head.append(kind);
    head.append("\r\nContent-Length: ");
    push_decimal(&mut head, length as u64);
    head.append("\r\nConnection: close\r\n\r\n");
    head
}

proof fn lemma_without_leading(text: Seq<char>, c: char)
    ensures
        without_leading(text, c).len() > 0 ==> without_leading(text, c)[0] != c,
    decreases text.len(),
{
    if text.len() > 0 && text[0] == c {
        lemma_without_leading(text.skip(1), c);
    }
}

/// What is served lies below the directory that is served: its path goes on from that directory
/// and never leads up.
pub proof fn law_served_files_stay_below(root: Seq<char>, path: Seq<char>)
    requires
        path_route(path) is File,
    ensures
        ({
            let file = path_route(path)->File_0;
            &&& root.is_prefix_of(joined(root, file))
            &&& file.is_suffix_of(joined(root, file))
            &&& !split(file, '/').contains(".."@)
        }),
{
    reveal_strlit("index.html");
    let file = path_route(path)->File_0;
    lemma_without_leading(path, '/');
    assert("index.html"@[0] == 'i');
    let whole = joined(root, file);
    assert(root =~= whole.subrange(0, root.len() as int));
    assert(file =~= whole.subrange(whole.len() - file.len(), whole.len() as int));
}

/// The path `/z/x/y.jpg` of any tile shows the page.
pub proof fn law_tile_paths_show_the_page(tile: Tile)
    ensures
        path_route(
            seq!['/'] + (decimal(tile.z as nat).push('/') + decimal(tile.x as nat).push('/') + (
            decimal(tile.y as nat) + ".jpg"@)),
        ) == RouteView::File("index.html"@),
{
    let z = decimal(tile.z as nat);
    let x = decimal(tile.x as nat);
    let y = decimal(tile.y as nat);
    let last = y + ".jpg"@;
    let inner = z.push('/') + x.push('/') + last;
    let path = seq!['/'] + inner;
    reveal_strlit(".jpg");
    reveal_strlit("index.html");
    reveal_strlit("..");
    lemma_decimal_value(tile.z as nat);
    lemma_decimal_value(tile.x as nat);
    lemma_decimal_value(tile.y as nat);
    assert(path.skip(1) =~= inner);
    assert(inner[0] == z[0]);
    assert(without_leading(inner, '/') == inner);
    assert(without_leading(path, '/') == inner);
    lemma_split_single(z, '/');
    lemma_split_joined(z, x, '/');
    assert forall|i: int| 0 <= i < last.len() implies last[i] != '/' by {
        if i < y.len() {
            assert(last[i] == y[i]);
        }
    }
    lemma_split_joined(z.push('/') + x, last, '/');
    assert((z.push('/') + x).push('/') + last =~= inner);
    assert(split(inner, '/') =~= seq![z, x, last]);
    let end = seq!['j', 'p', 'g'];
    lemma_split_single(y, '.');
    lemma_split_joined(y, end, '.');
    assert(y.push('.') + end =~= last);
    assert(split(last, '.') =~= seq![y, end]);
    law_decimal_round_trip(tile.z as nat, u32::MAX as nat);
    law_decimal_round_trip(tile.x as nat, u32::MAX as nat);
    law_decimal_round_trip(tile.y as nat, u32::MAX as nat);
    assert(tile_route(path));
    lemma_split_single("index.html"@, '/');
    assert("index.html"@ != ".."@) by {
        assert("index.html"@.len() == 10 && ".."@.len() == 2);
    }
    assert(split("index.html"@, '/') =~= seq!["index.html"@]);
    assert(!leads_up("index.html"@)) by {
        if split("index.html"@, '/').contains(".."@) {
            let i = choose|i: int|
                0 <= i < split("index.html"@, '/').len() && split("index.html"@, '/')[i] == ".."@;
        }
    }
}

/// The path `/tiles/z/x/y.jpg` is answered with the file that a download writes for the tile.
pub proof fn law_downloaded_tiles_are_served(root: Seq<char>, tile: Tile)
    ensures
        ({
            let path = "tiles/"@ + tile_relative(tile);
            &&& path_route(seq!['/'] + path) == RouteView::File(path)
            &&& joined(root, path) == tile_file(root, tile)
        }),
{
    let z = decimal(tile.z as nat);
    let x = decimal(tile.x as nat);
    let y = decimal(tile.y as nat);
    let last = y + ".jpg"@;
    let inner = tile_relative(tile);
    let path = "tiles/"@ + inner;
    reveal_strlit("tiles");
    reveal_strlit("tiles/");
    reveal_strlit("/");
    reveal_strlit(".jpg");
    reveal_strlit("..");
    lemma_decimal_value(tile.z as nat);
    lemma_decimal_value(tile.x as nat);
    lemma_decimal_value(tile.y as nat);
    let whole = seq!['/'] + path;
    assert(whole.skip(1) =~= path);
    assert(path[0] == 't');
    assert(without_leading(path, '/') == path);
    assert(without_leading(whole, '/') == path);
    lemma_split_single("tiles"@, '/');
    lemma_split_joined("tiles"@, z, '/');
    let p1 = "tiles"@.push('/') + z;
    lemma_split_joined(p1, x, '/');
    let p2 = p1.push('/') + x;
    assert forall|i: int| 0 <= i < last.len() implies last[i] != '/' by {
        if i < y.len() {
            assert(last[i] == y[i]);
        }
    }
    lemma_split_joined(p2, last, '/');
    assert(p2.push('/') + last =~= path);
    assert(split(path, '/') =~= seq!["tiles"@, z, x, last]);
    assert(whole.len() > 1);
    assert(whole != "/"@);
    assert(!tile_route(whole));
    assert(is_digit(z[0]) && is_digit(x[0]) && is_digit(y[0]));
    assert(last[0] == y[0]);
    assert(".."@[0] == '.' && "tiles"@[0] == 't');
    assert(!leads_up(path)) by {
        if split(path, '/').contains(".."@) {
            let i = choose|i: int| 0 <= i < split(path, '/').len() && split(path, '/')[i] == ".."@;
            assert(split(path, '/')[i][0] == '.');
        }
    }
    let directory = joined(root, "tiles"@);
    assert(directory.last() == 's');
    assert(joined(directory, z) == directory.push('/') + z);
    let at_z = directory.push('/') + z;
    assert(is_digit(z[z.len() - 1]));
    assert(at_z.last() == z[z.len() - 1]);
    let at_x = at_z.push('/') + x;
    assert(joined(at_z, x) == at_x);
    assert(is_digit(x[x.len() - 1]));
    assert(at_x.last() == x[x.len() - 1]);
    assert(joined(at_x, last) == at_x.push('/') + last);
    assert(joined(root, path) =~= at_x.push('/') + last);
}

proof fn lemma_unescaped_behind(front: Seq<u8>, rest: Seq<u8>, i: int)
    requires
        0 <= i <= rest.len(),
    ensures
        unescaped(front + rest, front.len() + i) == unescaped(rest, i),
    decreases rest.len() - i,
{
    let whole = front + rest;
    let at = front.len() + i;
    if i < rest.len() {
        assert(whole[at] == rest[i]);
        if i + 2 < rest.len() {
            assert(whole[at + 1] == rest[i + 1] && whole[at + 2] == rest[i + 2]);
            lemma_unescaped_behind(front, rest, i + 3);
        }
        lemma_unescaped_behind(front, rest, i + 1);
    }
}

/// The value of a hexadecimal digit, in either case.
pub proof fn law_hex_digits(byte: u8)
    ensures
        48 <= byte <= 57 ==> hex_digit(byte) == Some(byte - 48),
        65 <= byte <= 70 ==> hex_digit(byte) == Some(byte - 55),
        97 <= byte <= 102 ==> hex_digit(byte) == Some(byte - 87),
        byte < 48 || 57 < byte < 65 || 70 < byte < 97 || byte > 102 ==> hex_digit(byte) is None,
{
}

/// A percent sign and two hexadecimal digits stand for the byte with that number; a percent sign
/// with anything else behind it and every other byte stand for themselves.
pub proof fn law_escaped_bytes(high: u8, low: u8, rest: Seq<u8>)
    ensures
        hex_digit(high) is Some && hex_digit(low) is Some ==> {
            let number = 16 * hex_digit(high)->0 + hex_digit(low)->0;
            &&& 0 <= number <= 255
            &&& unescaped(seq![37u8, high, low] + rest, 0) == seq![number as u8] + unescaped(
                rest,
                0,
            )
        },
        hex_digit(low) is None || hex_digit(high) is None && high != 43 ==> unescaped(
            seq![37u8, high, low] + rest,
            0,
        ) == seq![37u8] + unescaped(seq![high, low] + rest, 0),
        high != 37 ==> unescaped(seq![high] + rest, 0) == seq![high] + unescaped(rest, 0),
        rest.len() < 2 ==> unescaped(seq![37u8] + rest, 0) == seq![37u8] + unescaped(rest, 0),
        unescaped(Seq::<u8>::empty(), 0) == Seq::<u8>::empty(),
{
    let escaped = seq![37u8, high, low] + rest;
    lemma_unescaped_behind(seq![37u8, high, low], rest, 0);
    lemma_unescaped_behind(seq![37u8], seq![high, low] + rest, 0);
    assert(escaped =~= seq![37u8] + (seq![high, low] + rest));
    lemma_unescaped_behind(seq![high], rest, 0);
    lemma_unescaped_behind(seq![37u8], rest, 0);
    assert(escaped[1] == high && escaped[2] == low);
}

/// The white space that parts the words of a text, by the numbers of its characters.
pub proof fn law_white_space(c: char)
    ensures
        is_space(c) <==> {
            let code = c as u32;
            ||| 9 <= code <= 13
            ||| code == 32 || code == 133 || code == 160 || code == 5760
            ||| 8192 <= code <= 8202
            ||| code == 8232 || code == 8233 || code == 8239 || code == 8287 || code == 12288
        },
{
}

/// A text without white space is one word; white space between two texts parts their words.
pub proof fn law_words(front: Seq<char>, space: char, back: Seq<char>)
    requires
        is_space(space),
    ensures
        words(front.push(space) + back) == words(front) + words(back),
        words(Seq::<char>::empty()) == Seq::<Seq<char>>::empty(),
        back.len() > 0 && (forall|i: int| 0 <= i < back.len() ==> !is_space(#[trigger] back[i]))
            ==> words(back) == seq![back],
    decreases back.len(),
{
    let whole = front.push(space) + back;
    lemma_words_behind(front, space, back);
    if back.len() > 0 && (forall|i: int| 0 <= i < back.len() ==> !is_space(#[trigger] back[i])) {
        lemma_one_word(back);
    }
}

proof fn lemma_words_behind(front: Seq<char>, space: char, back: Seq<char>)
    requires
        is_space(space),
    ensures
        words_so_far(front.push(space) + back).0 == words_so_far(front).0 + words_so_far(back).0,
        words_so_far(front.push(space) + back).1 == words_so_far(back).1,
    decreases back.len(),
{
    let whole = front.push(space) + back;
    let before = words_so_far(front).0;
    if back.len() == 0 {
        assert(whole =~= front.push(space));
        assert(whole.drop_last() =~= front);
        assert(before + words_so_far(back).0 =~= before);
    } else {
        let less = back.drop_last();
        lemma_words_behind(front, space, less);
        lemma_open_word(less);
        assert(whole.drop_last() =~= front.push(space) + less);
        assert(whole.last() == back.last());
        let inner = words_so_far(less).0;
        if words_so_far(less).1 {
            assert((before + inner).drop_last() =~= before + inner.drop_last());
            assert((before + inner).last() == inner.last());
        }
        assert(words_so_far(whole).0 =~= before + words_so_far(back).0);
    }
}

proof fn lemma_one_word(text: Seq<char>)
    requires
        text.len() > 0,
        forall|i: int| 0 <= i < text.len() ==> !is_space(#[trigger] text[i]),
    ensures
        words_so_far(text) == (seq![text], true),
    decreases text.len(),
{
    let front = text.drop_last();
    assert(!is_space(text[text.len() - 1]));
    if front.len() > 0 {
        assert forall|i: int| 0 <= i < front.len() implies !is_space(#[trigger] front[i]) by {
            assert(front[i] == text[i]);
        }
        lemma_one_word(front);
        assert(seq![front].drop_last() =~= Seq::<Seq<char>>::empty());
        assert(front.push(text.last()) =~= text);
        assert(words_so_far(text).0 =~= seq![text]);
    } else {
        assert(words_so_far(front).0 =~= Seq::<Seq<char>>::empty());
        assert(seq![text.last()] =~= text);
        assert(words_so_far(text).0 =~= seq![text]);
    }
}

proof fn lemma_first_piece(front: Seq<char>, back: Seq<char>, separator: char)
    requires
        !front.contains(separator),
    ensures
        split(front + back, separator).len() > 0,
        split(back, separator).len() > 0,
        split(front + back, separator)[0] == front + split(back, separator)[0],
        split(front + back, separator).len() == split(back, separator).len(),
    decreases back.len(),
{
    let whole = front + back;
    if back.len() == 0 {
        assert(whole =~= front);
        lemma_split_single(front, separator);
        assert(front + Seq::<char>::empty() =~= front);
    } else {
        let less = back.drop_last();
        lemma_first_piece(front, less, separator);
        assert(whole.drop_last() =~= front + less);
        assert(whole.last() == back.last());
        let inner = split(less, separator);
        let outer = split(front + less, separator);
        if back.last() != separator {
            if inner.len() == 1 {
                assert(outer.last() == outer[0] && inner.last() == inner[0]);
                assert(split(whole, separator)[0] == outer[0].push(back.last()));
                assert(split(back, separator)[0] == inner[0].push(back.last()));
                assert(outer[0].push(back.last()) =~= front + inner[0].push(back.last()));
            } else {
                assert(split(whole, separator)[0] == outer[0]);
                assert(split(back, separator)[0] == inner[0]);
            }
        } else {
            assert(split(whole, separator)[0] == outer[0]);
            assert(split(back, separator)[0] == inner[0]);
        }
    }
}

/// A text without white space.
pub open spec fn solid(text: Seq<char>) -> bool {
    text.len() > 0 && forall|i: int| 0 <= i < text.len() ==> !is_space(#[trigger] text[i])
}

/// The path of a request is its second word, whatever method comes before it, up to the question
/// mark of a query and whatever comes behind it; a request of one word asks for the root.
pub proof fn law_request_path(
    method: Seq<char>,
    path: Seq<char>,
    query: Seq<char>,
    rest: Seq<char>,
)
    requires
        solid(method),
        solid(path),
        !path.contains('?'),
        forall|i: int| 0 <= i < query.len() ==> !is_space(#[trigger] query[i]),
    ensures
        request_target(method + seq![' '] + path + seq![' '] + rest) == path,
        request_target(method + seq![' '] + path + seq!['?'] + query + seq![' '] + rest) == path,
        request_target(method) == seq!['/'],
{
    reveal_strlit("/");
    assert("/"@ =~= seq!['/']);
    lemma_target(method, path, rest);
    lemma_split_single(path, '?');
    let asked = path + seq!['?'] + query;
    assert forall|i: int| 0 <= i < asked.len() implies !is_space(#[trigger] asked[i]) by {
        if i < path.len() {
            assert(asked[i] == path[i]);
        } else if i > path.len() {
            assert(asked[i] == query[i - path.len() - 1]);
        }
    }
    lemma_target(method, asked, rest);
    assert(asked =~= path + (seq!['?'] + query));
    lemma_first_piece(path, seq!['?'] + query, '?');
    lemma_leading_separator(query, '?');
    assert(path + Seq::<char>::empty() =~= path);
    if method.contains('\n') {
        let i = choose|i: int| 0 <= i < method.len() && method[i] == '\n';
        assert(!is_space(method[i]));
    }
    lemma_split_single(method, '\n');
    lemma_one_word(method);
    assert(method + seq![' '] + path + seq!['?'] + query + seq![' '] + rest =~= method + seq![' ']
        + asked + seq![' '] + rest);
}

proof fn lemma_target(method: Seq<char>, target: Seq<char>, rest: Seq<char>)
    requires
        solid(method),
        solid(target),
    ensures
        request_target(method + seq![' '] + target + seq![' '] + rest) == split(target, '?')[0],
{
    let front = method + seq![' '] + target + seq![' '];
    let request = front + rest;
    if front.contains('\n') {
        let i = choose|i: int| 0 <= i < front.len() && front[i] == '\n';
        if i < method.len() {
            assert(!is_space(method[i]));
        } else if method.len() < i < method.len() + 1 + target.len() {
            assert(!is_space(target[i - method.len() - 1]));
        }
    }
    lemma_first_piece(front, rest, '\n');
    let tail = split(rest, '\n')[0];
    let line = front + tail;
    assert(line =~= method.push(' ') + (target.push(' ') + tail));
    law_words(method, ' ', target.push(' ') + tail);
    law_words(target, ' ', tail);
    lemma_one_word(method);
    lemma_one_word(target);
    assert(words(line) =~= seq![method] + (seq![target] + words(tail)));
    assert(words(line)[1] == target);
}

proof fn lemma_leading_separator(text: Seq<char>, separator: char)
    ensures
        split(seq![separator] + text, separator) == seq![Seq::<char>::empty()] + split(
            text,
            separator,
        ),
    decreases text.len(),
{
    let whole = seq![separator] + text;
    if text.len() == 0 {
        assert(whole.drop_last() =~= Seq::<char>::empty());
        assert(split(Seq::<char>::empty(), separator) =~= seq![Seq::<char>::empty()]);
        assert(whole.last() == separator);
        assert(split(text, separator) =~= seq![Seq::<char>::empty()]);
        assert(split(whole, separator) =~= seq![Seq::<char>::empty()] + split(text, separator));
    } else {
        let less = text.drop_last();
        lemma_leading_separator(less, separator);
        law_split_joins_back(less, separator);
        assert(whole.drop_last() =~= seq![separator] + less);
        assert(whole.last() == text.last());
        let inner = split(less, separator);
        let outer = seq![Seq::<char>::empty()] + inner;
        assert(outer.drop_last() =~= seq![Seq::<char>::empty()] + inner.drop_last());
        assert(outer.last() == inner.last());
        assert(split(whole, separator) =~= seq![Seq::<char>::empty()] + split(text, separator));
    }
}

/// A path with the way up among its parts is refused.
pub proof fn law_way_up_is_refused(path: Seq<char>)
    requires
        split(path, '/').contains(seq!['.', '.']),
    ensures
        path_route(path) == RouteView::Forbidden,
{
    reveal_strlit("..");
    reveal_strlit("/");
    assert(".."@ =~= seq!['.', '.']);
    let up = seq!['.', '.'];
    lemma_up_stays(path);
    let inner = without_leading(path, '/');
    let parts = split(inner, '/');
    let k = choose|k: int| 0 <= k < parts.len() && parts[k] == up;
    if path == "/"@ {
        assert("/"@ =~= seq!['/']);
        assert(path.skip(1) =~= Seq::<char>::empty());
        assert(without_leading(Seq::<char>::empty(), '/') =~= Seq::<char>::empty());
        assert(parts =~= seq![Seq::<char>::empty()]);
        assert(parts[k].len() == 0);
    }
    if tile_route(path) {
        law_unsigned_texts(up, u32::MAX as nat);
        if k == 2 {
            assert(up =~= seq!['.'] + seq!['.']);
            lemma_leading_separator(seq!['.'], '.');
            assert(split(up, '.')[0] == Seq::<char>::empty());
            law_unsigned_texts(Seq::<char>::empty(), u32::MAX as nat);
        }
    }
}

proof fn lemma_up_stays(path: Seq<char>)
    requires
        split(path, '/').contains(seq!['.', '.']),
    ensures
        split(without_leading(path, '/'), '/').contains(seq!['.', '.']),
    decreases path.len(),
{
    if path.len() > 0 && path[0] == '/' {
        let rest = path.skip(1);
        assert(path =~= seq!['/'] + rest);
        lemma_leading_separator(rest, '/');
        let parts = split(path, '/');
        let k = choose|k: int| 0 <= k < parts.len() && parts[k] == seq!['.', '.'];
        assert(parts[0].len() == 0);
        assert(split(rest, '/')[k - 1] == seq!['.', '.']);
        lemma_up_stays(rest);
    }
}

/// Any other path but that of a tile is answered with the file of its name below the directory that
/// is served, however many slashes it starts with; the root is answered with the page.
pub proof fn law_files_by_their_names(path: Seq<char>)
    ensures
        path == seq!['/'] ==> path_route(path) == RouteView::File("index.html"@),
        path != seq!['/'] && !tile_route(path) && !split(path, '/').contains(seq!['.', '.'])
            ==> path_route(path) == RouteView::File(without_leading(path, '/')),
        path_route(seq!['/'] + path) is Forbidden ==> split(path, '/').contains(seq!['.', '.']),
{
    reveal_strlit("..");
    reveal_strlit("/");
    reveal_strlit("index.html");
    assert(".."@ =~= seq!['.', '.']);
    assert("/"@ =~= seq!['/']);
    let page = "index.html"@;
    lemma_split_single(page, '/');
    assert(page.len() == 10);
    assert(!leads_up(page)) by {
        if split(page, '/').contains(".."@) {
            let i = choose|i: int| 0 <= i < split(page, '/').len() && split(page, '/')[i] == ".."@;
            assert(split(page, '/')[i] == page);
        }
    }
    lemma_no_way_up(path);
    lemma_no_way_up(seq!['/'] + path);
    lemma_leading_separator(path, '/');
    let parts = split(path, '/');
    let more = split(seq!['/'] + path, '/');
    if more.contains(seq!['.', '.']) {
        let k = choose|k: int| 0 <= k < more.len() && more[k] == seq!['.', '.'];
        assert(more[0].len() == 0);
        assert(parts[k - 1] == seq!['.', '.']);
    }
}

proof fn lemma_no_way_up(path: Seq<char>)
    ensures
        split(without_leading(path, '/'), '/').contains(seq!['.', '.']) ==> split(
            path,
            '/',
        ).contains(seq!['.', '.']),
    decreases path.len(),
{
    if path.len() > 0 && path[0] == '/' {
        let rest = path.skip(1);
        assert(path =~= seq!['/'] + rest);
        lemma_leading_separator(rest, '/');
        lemma_no_way_up(rest);
        if split(rest, '/').contains(seq!['.', '.']) {
            let k = choose|k: int|
                0 <= k < split(rest, '/').len() && split(rest, '/')[k] == seq!['.', '.'];
            assert(split(path, '/')[k + 1] == seq!['.', '.']);
        }
    }
}

/// The kinds of contents of files, by their extensions.
pub proof fn law_kinds_of_contents(path: Seq<char>)
    ensures
        path_extension(path) == Some(seq!['h', 't', 'm', 'l']) ==> contents_kind(path)
            == "text/html; charset=utf-8"@,
        path_extension(path) == Some(seq!['j', 'p', 'g']) || path_extension(path) == Some(
            seq!['j', 'p', 'e', 'g'],
        ) ==> contents_kind(path) == "image/jpeg"@,
        path_extension(path) == Some(seq!['j', 's', 'o', 'n']) ==> contents_kind(path)
            == "application/json"@,
        path_extension(path) is None || (path_extension(path) matches Some(text) && text != seq![
            'h',
            't',
            'm',
            'l',
        ] && text != seq!['j', 'p', 'g'] && text != seq!['j', 'p', 'e', 'g'] && text != seq![
            'j',
            's',
            'o',
            'n',
        ]) ==> contents_kind(path) == "application/octet-stream"@,
{
    reveal_strlit("html");
    reveal_strlit("jpg");
    reveal_strlit("jpeg");
    reveal_strlit("json");
    assert("html"@ =~= seq!['h', 't', 'm', 'l']);
    assert("jpg"@ =~= seq!['j', 'p', 'g']);
    assert("jpeg"@ =~= seq!['j', 'p', 'e', 'g']);
    assert("json"@ =~= seq!['j', 's', 'o', 'n']);
}

/// What a request for a file is answered: its contents where it can be read; for an image of a tile
/// that is not there an image of one pixel; and otherwise that there is no such file.
pub proof fn law_answers(path: Seq<char>, contents: Seq<u8>)
    ensures
        ({
            let reply = file_reply(path, true);
            &&& reply.status_text() == "200 OK"@
            &&& reply.kind_text(path) == contents_kind(path)
            &&& reply.body_bytes(contents) == contents
        }),
        ({
            let reply = file_reply(path, false);
            let missing_tile = "tiles/"@.is_prefix_of(path) && ".jpg"@.is_suffix_of(path);
            &&& missing_tile ==> {
                let image = image_header(reply.body_bytes(contents));
                &&& reply.status_text() == "200 OK"@
                &&& reply.kind_text(path) == "image/png"@
                &&& image.format == Some(ImageFormat::Png)
                &&& image.width == Some(1u32)
                &&& image.height == Some(1u32)
            }
            &&& !missing_tile ==> {
                &&& reply.status_text() == "404 Not Found"@
                &&& reply.kind_text(path) == "text/plain"@
                &&& reply.body_bytes(contents) == encode_utf8("Not found"@)
            }
        }),
        Reply::Forbidden.status_text() == "403 Forbidden"@,
        Reply::Forbidden.kind_text(path) == "text/plain"@,
        Reply::Forbidden.body_bytes(contents) == encode_utf8("Forbidden"@),
{
    let pixel = EMPTY_PNG@;
    assert(pixel.take(8) =~= seq![137u8, 80, 78, 71, 13, 10, 26, 10]);
    law_png_size(pixel);
}

/// The head of an answer: a line with the status, then the kind and the number of bytes of its body,
/// that the connection is closed, and an empty line.
pub proof fn law_head_of_an_answer(status: Seq<char>, kind: Seq<char>, length: nat)
    ensures
        answer_head(status, kind, length) == "HTTP/1.1 "@ + status + "\r\n"@ + "Content-Type: "@
            + kind + "\r\n"@ + "Content-Length: "@ + decimal(length) + "\r\n"@
            + "Connection: close"@ + "\r\n"@ + "\r\n"@,
{
    reveal_strlit("\r\n");
    reveal_strlit("Content-Type: ");
    reveal_strlit("Content-Length: ");
    reveal_strlit("Connection: close");
    reveal_strlit("\r\nContent-Type: ");
    reveal_strlit("\r\nContent-Length: ");
    reveal_strlit("\r\nConnection: close\r\n\r\n");
    assert("\r\nContent-Type: "@ =~= "\r\n"@ + "Content-Type: "@);
    assert("\r\nContent-Length: "@ =~= "\r\n"@ + "Content-Length: "@);
    assert("\r\nConnection: close\r\n\r\n"@ =~= "\r\n"@ + "Connection: close"@ + "\r\n"@
        + "\r\n"@);
    assert(answer_head(status, kind, length) =~= "HTTP/1.1 "@ + status + "\r\n"@
        + "Content-Type: "@ + kind + "\r\n"@ + "Content-Length: "@ + decimal(length) + "\r\n"@
        + "Connection: close"@ + "\r\n"@ + "\r\n"@);
}

/// A percent sign, a plus sign and a hexadecimal digit stand for the byte with the number of the
/// digit.
pub proof fn law_escaped_digit(low: u8, rest: Seq<u8>)
    requires
        hex_digit(low) is Some,
    ensures
        unescaped(seq![37u8, 43u8, low] + rest, 0) == seq![hex_digit(low)->0 as u8] + unescaped(
            rest,
            0,
        ),
{
    let escaped = seq![37u8, 43u8, low] + rest;
    lemma_unescaped_behind(seq![37u8, 43u8, low], rest, 0);
    assert(escaped[1] == 43 && escaped[2] == low);
}

/// A path names a tile where it has three parts: two numbers, and a number alone or with a dot and
/// anything behind it.
pub proof fn law_tile_routes(a: Seq<char>, b: Seq<char>, c: Seq<char>, more: Seq<char>)
    requires
        a.len() > 0,
        !a.contains('/'),
        !b.contains('/'),
        !c.contains('/'),
        !c.contains('.'),
        !more.contains('/'),
    ensures
        ({
            let front = seq!['/'] + a + seq!['/'] + b;
            let numbers = unsigned_value(a, 4294967295) is Some && unsigned_value(b, 4294967295) is
                Some && unsigned_value(c, 4294967295) is Some;
            &&& tile_route(front + seq!['/'] + c) <==> numbers
            &&& tile_route(front + seq!['/'] + c + seq!['.'] + more) <==> numbers
            &&& !tile_route(front)
            &&& !tile_route(front + seq!['/'] + c + seq!['/'] + more)
        }),
{
    let front = seq!['/'] + a + seq!['/'] + b;
    let inner = a.push('/') + b;
    let dotted = c.push('.') + more;
    lemma_split_single(a, '/');
    lemma_split_joined(a, b, '/');
    assert(split(inner, '/') =~= seq![a, b]);
    lemma_split_joined(inner, c, '/');
    let plain = inner.push('/') + c;
    if dotted.contains('/') {
        let i = choose|i: int| 0 <= i < dotted.len() && dotted[i] == '/';
        if i < c.len() {
            assert(c[i] == '/');
        } else if i > c.len() {
            assert(more[i - c.len() - 1] == '/');
        }
    }
    lemma_split_joined(inner, dotted, '/');
    lemma_split_joined(plain, more, '/');
    lemma_split_single(c, '.');
    assert(dotted =~= c + (seq!['.'] + more));
    lemma_first_piece(c, seq!['.'] + more, '.');
    lemma_leading_separator(more, '.');
    assert(c + Seq::<char>::empty() =~= c);
    if a[0] == '/' {
        assert(a.contains('/'));
    }
    lemma_one_slash(front, inner);
    lemma_one_slash(front + seq!['/'] + c, plain);
    lemma_one_slash(front + seq!['/'] + c + seq!['.'] + more, inner.push('/') + dotted);
    lemma_one_slash(front + seq!['/'] + c + seq!['/'] + more, plain.push('/') + more);
    assert(split(plain, '/') =~= seq![a, b, c]);
    assert(split(inner.push('/') + dotted, '/') =~= seq![a, b, dotted]);
    assert(split(plain.push('/') + more, '/').len() == 4);
}

proof fn lemma_one_slash(path: Seq<char>, inner: Seq<char>)
    requires
        path =~= seq!['/'] + inner,
        inner.len() > 0,
        inner[0] != '/',
    ensures
        without_leading(path, '/') == inner,
{
    assert(path.skip(1) =~= inner);
    assert(without_leading(inner, '/') == inner);
}

} // verus!
