//! The size and the encoding of an image, from its first bytes.
use vstd::prelude::*;

verus! {

/// How an image is encoded.
#[derive(Debug, Clone, Copy, PartialEq, Eq, Structural)]
pub enum ImageFormat {
    Png,
    Webp,
    Jpeg,
}

impl ImageFormat {
    /// The name of the encoding.
    pub open spec fn label(self) -> Seq<char> {
        match self {
            ImageFormat::Png => "png"@,
            ImageFormat::Webp => "webp"@,
            ImageFormat::Jpeg => "jpeg"@,
        }
    }

    /// The name of the encoding.
    pub fn name(self) -> (name: &'static str)
        ensures
            name@ == self.label(),
    {
        match self {
            ImageFormat::Png => "png",
            ImageFormat::Webp => "webp",
            ImageFormat::Jpeg => "jpeg",
        }
    }
}

/// What the first bytes of an image tell, as far as they tell it.
#[derive(Debug, Clone, Copy, PartialEq, Eq, Structural)]
pub struct ImageHeader {
    pub width: Option<u32>,
    pub height: Option<u32>,
    pub format: Option<ImageFormat>,
}

/// The number in two bytes, the high one first.
pub open spec fn big_pair(data: Seq<u8>, i: int) -> int {
    data[i] * 0x100 + data[i + 1]
}

/// The number in four bytes, the high ones first.
pub open spec fn big_quad(data: Seq<u8>, i: int) -> int {
    big_pair(data, i) * 0x1_0000 + big_pair(data, i + 2)
}

/// The number in three bytes, the low ones first.
pub open spec fn little_triple(data: Seq<u8>, i: int) -> int {
    data[i] + data[i + 1] * 0x100 + data[i + 2] * 0x1_0000
}

/// The number in four bytes, the low ones first.
pub open spec fn little_quad(data: Seq<u8>, i: int) -> int {
    little_triple(data, i) + data[i + 3] * 0x100_0000
}

/// The bytes that stand at a place.
pub open spec fn bytes_at(data: Seq<u8>, i: int, bytes: Seq<u8>) -> bool {
    i + bytes.len() <= data.len() && data.subrange(i, i + bytes.len()) == bytes
}

/// The first eight bytes of a PNG image.
pub open spec fn png_signature() -> Seq<u8> {
    seq![0x89u8, 0x50, 0x4e, 0x47, 0x0d, 0x0a, 0x1a, 0x0a]
}

/// `RIFF` in ASCII.
pub open spec fn riff_tag() -> Seq<u8> {
    seq![0x52u8, 0x49, 0x46, 0x46]
}

/// `WEBP` in ASCII.
pub open spec fn webp_tag() -> Seq<u8> {
    seq![0x57u8, 0x45, 0x42, 0x50]
}

/// `VP8X` in ASCII, the tag of a WebP image with extended features.
pub open spec fn extended_tag() -> Seq<u8> {
    seq![0x56u8, 0x50, 0x38, 0x58]
}

/// `VP8L` in ASCII, the tag of a WebP image without loss.
pub open spec fn lossless_tag() -> Seq<u8> {
    seq![0x56u8, 0x50, 0x38, 0x4c]
}

/// The markers of a JPEG segment that tells the size of the image: all from `c0` to `cf` but `c4`,
/// `c8` and `cc`.
pub open spec fn is_frame_marker(marker: u8) -> bool {
    0xc0 <= marker <= 0xcf && marker != 0xc4 && marker != 0xc8 && marker != 0xcc
}

/// The width and height that the first size segment from place `i` on tells. Bytes before a marker
/// are skipped, and so is every other segment, by the length it tells.
pub open spec fn jpeg_size(data: Seq<u8>, i: int) -> Option<(u32, u32)>
    decreases
            if i < data.len() {
                data.len() - i
            } else {
                0
            },
{
    if i < 0 || i + 9 >= data.len() {
        None
    } else if data[i] != 0xff {
        jpeg_size(data, i + 1)
    } else if is_frame_marker(data[i + 1]) {
        Some((big_pair(data, i + 7) as u32, big_pair(data, i + 5) as u32))
    } else if big_pair(data, i + 2) < 1 {
        jpeg_size(data, i + 3)
    } else {
        jpeg_size(data, i + 2 + big_pair(data, i + 2))
    }
}

/// What the bytes of a JPEG image tell.
pub open spec fn jpeg_header(data: Seq<u8>) -> ImageHeader {
    match jpeg_size(data, 2) {
        Some((width, height)) => ImageHeader {
            width: Some(width),
            height: Some(height),
            format: Some(ImageFormat::Jpeg),
        },
        None => ImageHeader { width: None, height: None, format: Some(ImageFormat::Jpeg) },
    }
}

/// What the bytes of a WebP image tell.
pub open spec fn webp_header(data: Seq<u8>) -> ImageHeader {
    if bytes_at(data, 12, extended_tag()) && data.len() >= 30 {
        ImageHeader {
            width: Some((little_triple(data, 24) + 1) as u32),
            height: Some((little_triple(data, 27) + 1) as u32),
            format: Some(ImageFormat::Webp),
        }
    } else if bytes_at(data, 12, lossless_tag()) && data.len() >= 25 {
        ImageHeader {
            width: Some((little_quad(data, 21) % 0x4000 + 1) as u32),
            height: Some((little_quad(data, 21) / 0x4000 % 0x4000 + 1) as u32),
            format: Some(ImageFormat::Webp),
        }
    } else {
        ImageHeader { width: None, height: None, format: Some(ImageFormat::Webp) }
    }
}

/// What the bytes of an image tell.
pub open spec fn image_header(data: Seq<u8>) -> ImageHeader {
    if bytes_at(data, 0, png_signature()) && data.len() >= 24 {
        ImageHeader {
            width: Some(big_quad(data, 16) as u32),
            height: Some(big_quad(data, 20) as u32),
            format: Some(ImageFormat::Png),
        }
    } else if bytes_at(data, 0, riff_tag()) && bytes_at(data, 8, webp_tag()) {
        webp_header(data)
    } else if bytes_at(data, 0, seq![0xffu8, 0xd8]) {
        jpeg_header(data)
    } else {
        ImageHeader { width: None, height: None, format: None }
    }
}

fn has_bytes_at(data: &[u8], at: usize, bytes: &[u8]) -> (answer: bool)
    requires
        at <= 16,
    ensures
        answer == bytes_at(data@, at as int, bytes@),
{
    if data.len() < at || data.len() - at < bytes.len() {
        return false;
    }
    let mut i: usize = 0;
    while i < bytes.len()
        invariant
            0 <= i <= bytes@.len(),
            at + bytes@.len() <= data@.len() <= usize::MAX,
            forall|k: int| 0 <= k < i ==> data@[at + k] == bytes@[k],
        decreases bytes@.len() - i,
    {
        if data[at + i] != bytes[i] {
            assert(data@.subrange(at as int, at + bytes@.len())[i as int] != bytes@[i as int]);
            return false;
        }
        i = i + 1;
    }
    assert(data@.subrange(at as int, at + bytes@.len()) =~= bytes@);
    true
}

fn read_big_pair(data: &[u8], i: usize) -> (number: u32)
    requires
        i + 1 < data@.len(),
    ensures
        number == big_pair(data@, i as int),
        number <= 0xffff,
{
    data[i] as u32 * 0x100 + data[i + 1] as u32
}

fn read_little_triple(data: &[u8], i: usize) -> (number: u32)
    requires
        i + 2 < data@.len(),
    ensures
        number == little_triple(data@, i as int),
        number <= 0xff_ffff,
{
    data[i] as u32 + data[i + 1] as u32 * 0x100 + data[i + 2] as u32 * 0x1_0000
}

/// Reads the size of a JPEG image.
pub fn read_jpeg_header(data: &[u8]) -> (header: ImageHeader)
    ensures
        header == jpeg_header(data@),
{
    let unknown = ImageHeader { width: None, height: None, format: Some(ImageFormat::Jpeg) };
    let mut index: usize = 2;
    while index < data.len() && data.len() - index > 9
        invariant
            2 <= index,
            jpeg_size(data@, 2) == jpeg_size(data@, index as int),
            unknown == (ImageHeader { width: None, height: None, format: Some(ImageFormat::Jpeg) }),
        decreases data@.len() - index,
    {
        if data[index] != 0xff {
            index = index + 1;
            continue;
        }
        let marker: u8 = data[index + 1];
        if 0xc0 <= marker && marker <= 0xcf && marker != 0xc4 && marker != 0xc8 && marker != 0xcc {
            return ImageHeader {
                width: Some(read_big_pair(data, index + 7)),
                height: Some(read_big_pair(data, index + 5)),
                format: Some(ImageFormat::Jpeg),
            };
        }
        let length: u32 = read_big_pair(data, index + 2);
        let step: usize = 2 + if length < 1 {
            1
        } else {
            length as usize
        };
        if step >= data.len() - index {
            assert(jpeg_size(data@, index + step) is None);
            return unknown;
        }
        index = index + step;
    }
    unknown
}

/// Reads the size of a WebP image.
pub fn read_webp_header(data: &[u8]) -> (header: ImageHeader)
    ensures
        header == webp_header(data@),
{
    let extended = [0x56u8, 0x50, 0x38, 0x58];
    let lossless = [0x56u8, 0x50, 0x38, 0x4c];
    assert(extended@ =~= extended_tag());
    assert(lossless@ =~= lossless_tag());
    if has_bytes_at(data, 12, extended.as_slice()) && data.len() >= 30 {
        return ImageHeader {
            width: Some(read_little_triple(data, 24) + 1),
            height: Some(read_little_triple(data, 27) + 1),
            format: Some(ImageFormat::Webp),
        };
    }
    if has_bytes_at(data, 12, lossless.as_slice()) && data.len() >= 25 {
        let bits: u32 = read_little_triple(data, 21) + data[24] as u32 * 0x100_0000;
        return ImageHeader {
            width: Some(bits % 0x4000 + 1),
            height: Some(bits / 0x4000 % 0x4000 + 1),
            format: Some(ImageFormat::Webp),
        };
    }
    ImageHeader { width: None, height: None, format: Some(ImageFormat::Webp) }
}

/// Reads the size and the encoding of an image from its bytes.
pub fn read_image_header(data: &[u8]) -> (header: ImageHeader)
    ensures
        header == image_header(data@),
{
    let png = [0x89u8, 0x50, 0x4e, 0x47, 0x0d, 0x0a, 0x1a, 0x0a];
    let riff = [0x52u8, 0x49, 0x46, 0x46];
    let webp = [0x57u8, 0x45, 0x42, 0x50];
    let jpeg = [0xffu8, 0xd8];
    assert(png@ =~= png_signature());
    assert(riff@ =~= riff_tag());
    assert(webp@ =~= webp_tag());
    assert(jpeg@ =~= seq![0xffu8, 0xd8]);
    if has_bytes_at(data, 0, png.as_slice()) && data.len() >= 24 {
        return ImageHeader {
            width: Some(read_big_pair(data, 16) * 0x1_0000 + read_big_pair(data, 18)),
            height: Some(read_big_pair(data, 20) * 0x1_0000 + read_big_pair(data, 22)),
            format: Some(ImageFormat::Png),
        };
    }
    if has_bytes_at(data, 0, riff.as_slice()) && has_bytes_at(data, 8, webp.as_slice()) {
        return read_webp_header(data);
    }
    if has_bytes_at(data, 0, jpeg.as_slice()) {
        return read_jpeg_header(data);
    }
    ImageHeader { width: None, height: None, format: None }
}

/// A width is known exactly where a height is, and whatever has a size has a known encoding.
pub proof fn law_size_is_whole(data: Seq<u8>)
    ensures
        image_header(data).width is Some <==> image_header(data).height is Some,
        image_header(data).width is Some ==> image_header(data).format is Some,
{
}

/// A PNG image tells its width in the four bytes from number 16 on and its height in the next four,
/// the high byte first.
pub proof fn law_png_size(data: Seq<u8>)
    requires
        data.len() >= 24,
        data.take(8) == seq![137u8, 80, 78, 71, 13, 10, 26, 10],
    ensures
        image_header(data).format == Some(ImageFormat::Png),
        image_header(data).width matches Some(width) && width == data[16] * 16777216 + data[17]
            * 65536 + data[18] * 256 + data[19],
        image_header(data).height matches Some(height) && height == data[20] * 16777216 + data[21]
            * 65536 + data[22] * 256 + data[23],
{
    assert(data.subrange(0, 8) =~= data.take(8));
    assert(png_signature() =~= seq![137u8, 80, 78, 71, 13, 10, 26, 10]);
    assert(bytes_at(data, 0, png_signature()));
}

/// The bytes `RIFF`, four bytes of any kind, then `WEBP` and the name of the first chunk.
pub open spec fn starts_webp(data: Seq<u8>, chunk: Seq<u8>) -> bool {
    &&& data.len() >= 16
    &&& data.take(4) == seq![82u8, 73, 70, 70]
    &&& data.subrange(8, 12) == seq![87u8, 69, 66, 80]
    &&& data.subrange(12, 16) == chunk
}

proof fn lemma_webp(data: Seq<u8>, chunk: Seq<u8>)
    requires
        starts_webp(data, chunk),
    ensures
        image_header(data) == webp_header(data),
        chunk.len() == 4 ==> bytes_at(data, 12, chunk),
{
    assert(data.subrange(0, 4) =~= data.take(4));
    assert(riff_tag() =~= seq![82u8, 73, 70, 70]);
    assert(webp_tag() =~= seq![87u8, 69, 66, 80]);
    assert(data[0] == data.take(4)[0]);
    if bytes_at(data, 0, png_signature()) {
        assert(data.subrange(0, 8)[0] == data[0]);
        assert(png_signature()[0] == 0x89);
    }
}

/// A WebP image with extended features tells its width less one in three bytes from number 24 on
/// and its height less one in the next three, the low byte first.
pub proof fn law_extended_webp_size(data: Seq<u8>)
    requires
        starts_webp(data, seq![86u8, 80, 56, 88]),
        data.len() >= 30,
    ensures
        image_header(data).format == Some(ImageFormat::Webp),
        image_header(data).width matches Some(width) && width == 1 + data[24] + data[25] * 256
            + data[26] * 65536,
        image_header(data).height matches Some(height) && height == 1 + data[27] + data[28] * 256
            + data[29] * 65536,
{
    lemma_webp(data, seq![86u8, 80, 56, 88]);
    assert(extended_tag() =~= seq![86u8, 80, 56, 88]);
}

/// A WebP image without loss holds in the four bytes from number 21 on, the low byte first, fourteen
/// bits of its width less one and then fourteen of its height less one.
pub proof fn law_lossless_webp_size(data: Seq<u8>, width: int, height: int, rest: int)
    requires
        starts_webp(data, seq![86u8, 80, 56, 76]),
        data.len() >= 25,
        1 <= width <= 16384,
        1 <= height <= 16384,
        0 <= rest,
        data[21] + data[22] * 256 + data[23] * 65536 + data[24] * 16777216 == (width - 1) + (height
            - 1) * 16384 + rest * 268435456,
    ensures
        image_header(data).format == Some(ImageFormat::Webp),
        image_header(data).width == Some(width as u32),
        image_header(data).height == Some(height as u32),
{
    lemma_webp(data, seq![86u8, 80, 56, 76]);
    assert(lossless_tag() =~= seq![86u8, 80, 56, 76]);
    assert(data.subrange(12, 16)[3] == 76u8);
    if bytes_at(data, 12, extended_tag()) {
        assert(extended_tag()[3] == 88u8);
    }
    let bits = little_quad(data, 21);
    assert(bits == (width - 1) + 16384 * ((height - 1) + 16384 * rest));
    let upper = (height - 1) + 16384 * rest;
    vstd::arithmetic::div_mod::lemma_fundamental_div_mod_converse(bits, 16384, upper, width - 1);
    vstd::arithmetic::div_mod::lemma_fundamental_div_mod_converse(upper, 16384, rest, height - 1);
}

/// Any other WebP image tells no size, and one that is cut off before its size tells none either.
pub proof fn law_other_webp(data: Seq<u8>, chunk: Seq<u8>)
    requires
        starts_webp(data, chunk),
        (chunk != seq![86u8, 80, 56, 88] || data.len() < 30) && (chunk != seq![86u8, 80, 56, 76]
            || data.len() < 25),
    ensures
        image_header(data) == (ImageHeader {
            width: None,
            height: None,
            format: Some(ImageFormat::Webp),
        }),
{
    lemma_webp(data, chunk);
    assert(extended_tag() =~= seq![86u8, 80, 56, 88]);
    assert(lossless_tag() =~= seq![86u8, 80, 56, 76]);
}

/// The segments of a JPEG image that tell its size.
pub proof fn law_frame_markers(marker: u8)
    ensures
        is_frame_marker(marker) <==> {
            ||| marker == 192 || marker == 193 || marker == 194 || marker == 195
            ||| marker == 197 || marker == 198 || marker == 199
            ||| marker == 201 || marker == 202 || marker == 203
            ||| marker == 205 || marker == 206 || marker == 207
        },
{
}

/// A JPEG image whose first segment is a frame tells its height and then its width there, each in
/// two bytes, the high byte first.
pub proof fn law_jpeg_frame_size(data: Seq<u8>, i: int)
    requires
        0 <= i,
        i + 9 < data.len(),
        data[i] == 255,
        is_frame_marker(data[i + 1]),
    ensures
        jpeg_size(data, i) matches Some((width, height)) && height == data[i + 5] * 256 + data[i
            + 6] && width == data[i + 7] * 256 + data[i + 8],
        i == 2 && data[0] == 255 && data[1] == 216 ==> {
            &&& image_header(data).format == Some(ImageFormat::Jpeg)
            &&& image_header(data).height matches Some(height) && height == data[7] * 256 + data[8]
            &&& image_header(data).width matches Some(width) && width == data[9] * 256 + data[10]
        },
{
    if i == 2 && data[0] == 255 && data[1] == 216 {
        lemma_jpeg(data);
    }
}

proof fn lemma_jpeg(data: Seq<u8>)
    requires
        data.len() >= 2,
        data[0] == 255,
        data[1] == 216,
    ensures
        image_header(data) == jpeg_header(data),
{
    assert(data.subrange(0, 2) =~= seq![0xffu8, 0xd8]);
    if bytes_at(data, 0, png_signature()) {
        assert(data.subrange(0, 8)[0] == data[0]);
        assert(png_signature()[0] == 0x89);
    }
    if bytes_at(data, 0, riff_tag()) {
        assert(data.subrange(0, 4)[0] == data[0]);
        assert(riff_tag()[0] == 0x52);
    }
}

/// Where a JPEG image goes on: behind bytes that start no segment, and behind a segment of another
/// kind by the length that it tells, its two bytes included, or by one byte where it tells none.
/// The size is that of the first frame, and is not known where too few bytes are left.
pub proof fn law_jpeg_segments(data: Seq<u8>, i: int)
    requires
        0 <= i,
    ensures
        i + 9 >= data.len() ==> jpeg_size(data, i) is None,
        i + 9 < data.len() && data[i] != 255 ==> jpeg_size(data, i) == jpeg_size(data, i + 1),
        i + 9 < data.len() && data[i] == 255 && !is_frame_marker(data[i + 1]) ==> jpeg_size(data, i)
            == jpeg_size(
            data,
            i + 2 + if data[i + 2] == 0 && data[i + 3] == 0 {
                1
            } else {
                data[i + 2] * 256 + data[i + 3]
            },
        ),
        data.len() >= 2 && data[0] == 255 && data[1] == 216 ==> image_header(data)
            == (match jpeg_size(data, 2) {
            Some((width, height)) => ImageHeader {
                width: Some(width),
                height: Some(height),
                format: Some(ImageFormat::Jpeg),
            },
            None => ImageHeader { width: None, height: None, format: Some(ImageFormat::Jpeg) },
        }),
{
    if data.len() >= 2 && data[0] == 255 && data[1] == 216 {
        lemma_jpeg(data);
    }
}

/// Bytes that start like no known image tell nothing.
pub proof fn law_unknown_bytes(data: Seq<u8>)
    requires
        data.len() == 0 || data[0] != 137 && data[0] != 82 && data[0] != 255,
    ensures
        image_header(data) == (ImageHeader { width: None, height: None, format: None }),
{
    if bytes_at(data, 0, png_signature()) {
        assert(data.subrange(0, 8)[0] == data[0]);
        assert(png_signature()[0] == 0x89);
    }
    if bytes_at(data, 0, riff_tag()) {
        assert(data.subrange(0, 4)[0] == data[0]);
        assert(riff_tag()[0] == 0x52);
    }
    if bytes_at(data, 0, seq![0xffu8, 0xd8]) {
        assert(data.subrange(0, 2)[0] == data[0]);
    }
}

} // verus!
