use vstd::prelude::*;

verus! {

/// Why a heightmap grid is refused.
#[derive(Clone, Copy, Debug, PartialEq, Eq, Structural)]
pub enum GridError {
    /// Fewer than two samples along an axis.
    InvalidDimensions { width: u32, height: u32 },
    /// The number of heights is not `width * height`.
    HeightCount { expected: u64, actual: usize },
}

/// The verdict on a grid of `width` by `height` samples holding `count`
/// heights: at least two samples along each axis, and exactly one height
/// per sample.
pub open spec fn grid_check(width: u32, height: u32, count: usize) -> Result<(), GridError> {
    if width < 2 || height < 2 {
        Err(GridError::InvalidDimensions { width, height })
    } else if count != width * height {
        Err(GridError::HeightCount { expected: (width * height) as u64, actual: count })
    } else {
        Ok(())
    }
}

/// Checks the shape of a heightmap grid.
pub fn check_grid(width: u32, height: u32, count: usize) -> (r: Result<(), GridError>)
    ensures
        r == grid_check(width, height, count),
{
    if width < 2 || height < 2 {
        return Err(GridError::InvalidDimensions { width, height });
    }
    let w: u64 = width as u64;
    let h: u64 = height as u64;
    assert(w * h <= 0xffff_ffff * 0xffff_ffff) by (nonlinear_arith)
        requires
            w <= 0xffff_ffff,
            h <= 0xffff_ffff,
    ;
    let expected: u64 = w * h;
    if count as u64 != expected {
        return Err(GridError::HeightCount { expected, actual: count });
    }
    Ok(())
}

/// The samples of 16-bit big-endian data: `None` for an odd number of
/// bytes, else each pair of bytes read as one sample, high byte first.
pub fn decode_be_u16_samples(data: &[u8]) -> (r: Option<Vec<u16>>)
    ensures
        match r {
            None => data@.len() % 2 == 1,
            Some(v) => {
                &&& data@.len() % 2 == 0
                &&& v@.len() * 2 == data@.len()
                &&& forall|i: int|
                    0 <= i < v@.len() ==> #[trigger] v@[i] == data@[2 * i] * 256 + data@[2 * i + 1]
            },
        },
{
    if data.len() % 2 != 0 {
        return None;
    }
    let n: usize = data.len() / 2;
    assert(data@.len() == data.len());
    let mut out: Vec<u16> = Vec::new();
    let mut i: usize = 0;
    while i < n
        invariant
            n * 2 == data@.len(),
            data@.len() <= usize::MAX,
            i <= n,
            out@.len() == i,
            forall|k: int| 0 <= k < i ==> #[trigger] out@[k] == data@[2 * k] * 256 + data@[2 * k + 1],
        decreases n - i,
    {
        let hi = data[2 * i] as u16;
        let lo = data[2 * i + 1] as u16;
        assert(hi * 256 + lo <= 0xffff) by (nonlinear_arith)
            requires
                hi <= 255,
                lo <= 255,
        ;
        out.push(hi * 256 + lo);
        i = i + 1;
    }
    Some(out)
}

/// The header png reads from `bytes`: width, height, color type code and
/// bit depth, or its error message. A name for png's result.
pub uninterp spec fn png_header_of(bytes: Seq<u8>) -> Result<(u32, u32, u8, u8), Seq<char>>;

/// The first frame png decodes from `bytes`: `None` where png reports no
/// output buffer size, else the frame's bytes or png's error message. A
/// name for png's result.
pub uninterp spec fn png_frame_of(bytes: Seq<u8>) -> Option<Result<Seq<u8>, Seq<char>>>;

/// Reads the PNG header of `bytes` with png's `Decoder::read_info`: the
/// image's width, height, color type code (`ColorType as u8`) and bit depth
/// (`BitDepth as u8`), or the decoding error's message. The result is
/// png's, named by [`png_header_of`].
#[verifier::external_body]
fn png_read_header(bytes: &[u8]) -> (r: Result<(u32, u32, u8, u8), String>)
    ensures
        match r {
            Ok(h) => png_header_of(bytes@) == Ok::<(u32, u32, u8, u8), Seq<char>>(h),
            Err(e) => png_header_of(bytes@) == Err::<(u32, u32, u8, u8), Seq<char>>(e@),
        },
{
    match png::Decoder::new(std::io::Cursor::new(bytes)).read_info() {
        Ok(reader) => {
            let info = reader.info();
            Ok((info.width, info.height, info.color_type as u8, info.bit_depth as u8))
        },
        Err(e) => Err(e.to_string()),
    }
}

/// Decodes the first frame of `bytes` with png's `Reader::next_frame`, into
/// a buffer of `Reader::output_buffer_size` bytes cut to the frame's
/// `buffer_size`: `None` where png reports no buffer size, else the bytes
/// or the decoding error's message. The result is png's, named by
/// [`png_frame_of`].
#[verifier::external_body]
fn png_read_frame(bytes: &[u8]) -> (r: Option<Result<Vec<u8>, String>>)
    ensures
        match r {
            None => png_frame_of(bytes@) == None::<Result<Seq<u8>, Seq<char>>>,
            Some(Ok(d)) => png_frame_of(bytes@) == Some(Ok::<Seq<u8>, Seq<char>>(d@)),
            Some(Err(e)) => png_frame_of(bytes@) == Some(Err::<Seq<u8>, Seq<char>>(e@)),
        },
{
    let mut reader = match png::Decoder::new(std::io::Cursor::new(bytes)).read_info() {
        Ok(reader) => reader,
        Err(e) => return Some(Err(e.to_string())),
    };
    let mut buf = vec![0u8; reader.output_buffer_size()?];
    Some(match reader.next_frame(&mut buf) {
        Ok(frame) => Ok(buf[..frame.buffer_size()].to_vec()),
        Err(e) => Err(e.to_string()),
    })
}

/// Why a 16-bit grayscale heightmap PNG is refused.
#[derive(Clone, Debug, PartialEq, Eq)]
pub enum HeightmapDecodeError {
    /// png could not decode the data; its message.
    Decode(String),
    /// The image is not 16-bit grayscale: its color type code and bit depth.
    UnsupportedPng { color_type: u8, bit_depth: u8 },
    /// png reported no output buffer size.
    UnknownBufferSize,
    /// The decoded data holds an odd number of bytes.
    MalformedPngData,
}

/// Color type code of grayscale images in PNG.
pub const GRAYSCALE: u8 = 0;

/// Bit depth of 16-bit samples.
pub const SIXTEEN_BITS: u8 = 16;

/// The samples of big-endian 16-bit data of even length.
pub open spec fn be_samples(data: Seq<u8>) -> Seq<u16> {
    Seq::new(data.len() / 2, |i: int| (data[2 * i] * 256 + data[2 * i + 1]) as u16)
}

/// Whether `r` is the outcome of reading a 16-bit grayscale heightmap from
/// a PNG whose header reads as `header` and whose first frame as `frame`:
/// a header error comes back as is; an image that is not 16-bit grayscale
/// is refused before its frame is read; then a frame error or a missing
/// buffer size, odd data, or else the samples.
pub open spec fn gray16_outcome(
    header: Result<(u32, u32, u8, u8), Seq<char>>,
    frame: Option<Result<Seq<u8>, Seq<char>>>,
    r: Result<(u32, u32, Vec<u16>), HeightmapDecodeError>,
) -> bool {
    match header {
        Err(e) => r matches Err(HeightmapDecodeError::Decode(m)) && m@ == e,
        Ok((w, h, c, d)) => if !(c == GRAYSCALE && d == SIXTEEN_BITS) {
            r == Err::<(u32, u32, Vec<u16>), HeightmapDecodeError>(HeightmapDecodeError::UnsupportedPng { color_type: c, bit_depth: d })
        } else {
            match frame {
                None => r == Err::<(u32, u32, Vec<u16>), HeightmapDecodeError>(HeightmapDecodeError::UnknownBufferSize),
                Some(Err(e)) => r matches Err(HeightmapDecodeError::Decode(m)) && m@ == e,
                Some(Ok(data)) => if data.len() % 2 == 1 {
                    r == Err::<(u32, u32, Vec<u16>), HeightmapDecodeError>(HeightmapDecodeError::MalformedPngData)
                } else {
                    r matches Ok((w2, h2, s)) && w2 == w && h2 == h && s@ == be_samples(data)
                },
            }
        },
    }
}

/// The view of a header result.
pub open spec fn header_view(header: Result<(u32, u32, u8, u8), String>) -> Result<(u32, u32, u8, u8), Seq<char>> {
    match header {
        Ok(h) => Ok(h),
        Err(e) => Err(e@),
    }
}

/// The view of a frame result.
pub open spec fn frame_view(frame: Option<Result<Vec<u8>, String>>) -> Option<Result<Seq<u8>, Seq<char>>> {
    match frame {
        None => None,
        Some(Ok(d)) => Some(Ok(d@)),
        Some(Err(e)) => Some(Err(e@)),
    }
}

/// Whether a header names a 16-bit grayscale image.
fn is_gray16(header: &Result<(u32, u32, u8, u8), String>) -> (r: bool)
    ensures
        r == (header matches Ok((w, h, c, d)) && c == GRAYSCALE && d == SIXTEEN_BITS),
{
    match header {
        Ok((_, _, c, d)) => *c == GRAYSCALE && *d == SIXTEEN_BITS,
        Err(_) => false,
    }
}

/// The outcome of reading a 16-bit grayscale heightmap, given what png
/// read of the header and, for a 16-bit grayscale image, of the first
/// frame (`frame` is not looked at otherwise).
pub fn gray16_from_parts(
    header: Result<(u32, u32, u8, u8), String>,
    frame: Option<Result<Vec<u8>, String>>,
) -> (r: Result<(u32, u32, Vec<u16>), HeightmapDecodeError>)
    ensures
        gray16_outcome(header_view(header), frame_view(frame), r),
{
    let (w, h, c, d) = match header {
        Err(e) => return Err(HeightmapDecodeError::Decode(e)),
        Ok(t) => t,
    };
    if !(c == GRAYSCALE && d == SIXTEEN_BITS) {
        return Err(HeightmapDecodeError::UnsupportedPng { color_type: c, bit_depth: d });
    }
    let data = match frame {
        None => return Err(HeightmapDecodeError::UnknownBufferSize),
        Some(Err(e)) => return Err(HeightmapDecodeError::Decode(e)),
        Some(Ok(data)) => data,
    };
    match decode_be_u16_samples(data.as_slice()) {
        None => Err(HeightmapDecodeError::MalformedPngData),
        Some(s) => {
            proof {
                assert(s@ =~= be_samples(data@));
            }
            Ok((w, h, s))
        },
    }
}

/// Reads a 16-bit grayscale PNG heightmap: its width, height and samples.
/// png decodes the header and, for a 16-bit grayscale image only, the first
/// frame; the rest is [`gray16_from_parts`].
pub fn decode_gray16(bytes: &[u8]) -> (r: Result<(u32, u32, Vec<u16>), HeightmapDecodeError>)
    ensures
        gray16_outcome(png_header_of(bytes@), png_frame_of(bytes@), r),
{
    let header = png_read_header(bytes);
    if is_gray16(&header) {
        let frame = png_read_frame(bytes);
        gray16_from_parts(header, frame)
    } else {
        gray16_from_parts(header, None)
    }
}

} // verus!
