//! The YUV4MPEG2 stream that is piped into the encoder.
use vstd::prelude::*;

use crate::ffms2::{colorspace, Crop, PixelFormat, PixelSubsampling};
use crate::number::{dec, dec_u64};
use crate::text::{lemma_split_part, lemma_split_whole, plus, split_on};

verus! {

/// What is known of a video before it is encoded.
#[derive(Debug, Clone, Copy, PartialEq, Eq, Structural)]
pub struct VideoInfo {
    pub width: u32,
    pub height: u32,
    pub fps_num: u32,
    pub fps_den: u32,
    pub sar_num: u32,
    pub sar_den: u32,
    pub num_frames: u32,
    pub pixel_format: PixelFormat,
}

/// A part of a plane: `w` samples of each of `h` rows, from column `x` and row
/// `y` on.
#[derive(Debug, Clone, Copy, PartialEq, Eq, Structural)]
pub struct Window {
    pub w: usize,
    pub h: usize,
    pub x: usize,
    pub y: usize,
}

/// A rectangle has odd edges or does not lie inside the source.
#[derive(Debug, Clone, Copy, PartialEq, Eq, Structural)]
pub struct CropError {
    pub crop: Crop,
    pub width: u32,
    pub height: u32,
}

/// The pixels of one plane of a frame: rows of `stride` bytes each.
pub struct Plane<'a> {
    pub data: &'a [u8],
    pub stride: usize,
}

impl CropError {
    pub open spec fn text(self) -> Seq<char> {
        "crop "@ + dec(self.crop.w as nat) + ":"@ + dec(self.crop.h as nat) + ":"@ + dec(
            self.crop.x as nat,
        ) + ":"@ + dec(self.crop.y as nat) + " does not fit source "@ + dec(self.width as nat)
            + "x"@ + dec(self.height as nat) + " (or has odd edges)"@
    }

    pub fn message(&self) -> (r: String)
        ensures
            r@ == self.text(),
    {
        let r = plus("crop ".to_owned(), dec_u64(self.crop.w as u64).as_str());
        let r = plus(plus(r, ":"), dec_u64(self.crop.h as u64).as_str());
        let r = plus(plus(r, ":"), dec_u64(self.crop.x as u64).as_str());
        let r = plus(plus(r, ":"), dec_u64(self.crop.y as u64).as_str());
        let r = plus(plus(r, " does not fit source "), dec_u64(self.width as u64).as_str());
        let r = plus(plus(r, "x"), dec_u64(self.height as u64).as_str());
        plus(r, " (or has odd edges)")
    }
}

impl VideoInfo {
    /// The video as the decoder describes it. An aspect ratio of the samples
    /// that is not positive becomes 0 over 1.
    pub fn from_properties(
        size: (u32, u32),
        fps: (u32, u32),
        sar: (i32, i32),
        num_frames: u32,
        pixel_format: PixelFormat,
    ) -> (r: VideoInfo)
        ensures
            r.width == size.0 && r.height == size.1,
            r.fps_num == fps.0 && r.fps_den == fps.1,
            r.sar_num == (if sar.0 > 0 {
                sar.0 as int
            } else {
                0
            }),
            r.sar_den == (if sar.1 > 1 {
                sar.1 as int
            } else {
                1
            }),
            r.num_frames == num_frames && r.pixel_format == pixel_format,
    {
        VideoInfo {
            width: size.0,
            height: size.1,
            fps_num: fps.0,
            fps_den: fps.1,
            sar_num: if sar.0 > 0 {
                sar.0 as u32
            } else {
                0
            },
            sar_den: if sar.1 > 1 {
                sar.1 as u32
            } else {
                1
            },
            num_frames,
            pixel_format,
        }
    }
}

/// The part of the first plane that is written: the whole of it, or the given
/// rectangle.
pub open spec fn luma_window(info: VideoInfo, crop: Option<Crop>) -> Window {
    match crop {
        Some(c) => Window { w: c.w as usize, h: c.h as usize, x: c.x as usize, y: c.y as usize },
        None => Window { w: info.width as usize, h: info.height as usize, x: 0, y: 0 },
    }
}

pub open spec fn half_up(n: usize) -> usize {
    ((n + 1) / 2) as usize
}

/// The part of the other planes that goes with a part of the first: as many
/// columns and rows as a reader of the stream takes for it, so halves are
/// rounded up.
pub open spec fn chroma_window(sub: PixelSubsampling, luma: Window) -> Window {
    match sub {
        PixelSubsampling::Yuv420 => Window {
            w: half_up(luma.w),
            h: half_up(luma.h),
            x: luma.x / 2,
            y: luma.y / 2,
        },
        PixelSubsampling::Yuv422 => Window { w: half_up(luma.w), h: luma.h, x: luma.x / 2, y: luma.y },
        PixelSubsampling::Yuv444 => luma,
    }
}

/// The width, the height and the position of the chroma planes of a frame.
pub fn chroma_geometry(
    subsampling: PixelSubsampling,
    out_w: usize,
    out_h: usize,
    crop_x: usize,
    crop_y: usize,
) -> (r: (usize, usize, usize, usize))
    ensures
        (Window { w: r.0, h: r.1, x: r.2, y: r.3 }) == chroma_window(
            subsampling,
            Window { w: out_w, h: out_h, x: crop_x, y: crop_y },
        ),
{
    match subsampling {
        PixelSubsampling::Yuv420 => (
            out_w / 2 + out_w % 2,
            out_h / 2 + out_h % 2,
            crop_x / 2,
            crop_y / 2,
        ),
        PixelSubsampling::Yuv422 => (out_w / 2 + out_w % 2, out_h, crop_x / 2, crop_y),
        PixelSubsampling::Yuv444 => (out_w, out_h, crop_x, crop_y),
    }
}

/// The parts of the planes that are written, the one of the first plane and
/// the one of the others.
pub fn frame_windows(info: &VideoInfo, crop: Option<Crop>) -> (r: Result<
    (Window, Window),
    CropError,
>)
    ensures
        match crop {
            Some(c) => if c.normal(info.width, info.height) {
                r is Ok
            } else {
                r == Err::<(Window, Window), CropError>(
                    CropError { crop: c, width: info.width, height: info.height },
                )
            },
            None => r is Ok,
        },
        r matches Ok((luma, chroma)) ==> luma == luma_window(*info, crop) && chroma
            == chroma_window(info.pixel_format.subsampling, luma),
{
    let luma = match crop {
        Some(c) => {
            let fits = match c.normalized(info.width, info.height) {
                Some(n) => n == c,
                None => false,
            };
            if !fits {
                return Err(CropError { crop: c, width: info.width, height: info.height });
            }
            Window { w: c.w as usize, h: c.h as usize, x: c.x as usize, y: c.y as usize }
        },
        None => Window { w: info.width as usize, h: info.height as usize, x: 0, y: 0 },
    };
    let (w, h, x, y) = chroma_geometry(
        info.pixel_format.subsampling,
        luma.w,
        luma.h,
        luma.x,
        luma.y,
    );
    Ok((luma, Window { w, h, x, y }))
}

/// The aspect ratio of the samples, or `0:0` where it is not known.
pub open spec fn aspect_text(info: VideoInfo) -> Seq<char> {
    if info.sar_num > 0 && info.sar_den > 0 {
        dec(info.sar_num as nat) + ":"@ + dec(info.sar_den as nat)
    } else {
        "0:0"@
    }
}

/// The first line of a stream with frames of `w` by `h` pixels.
pub open spec fn header_text(info: VideoInfo, w: nat, h: nat) -> Seq<char> {
    "YUV4MPEG2 W"@ + dec(w) + " H"@ + dec(h) + " F"@ + dec(info.fps_num as nat) + ":"@ + dec(
        info.fps_den as nat,
    ) + " Ip A"@ + aspect_text(info) + " C"@ + colorspace(
        info.pixel_format.subsampling,
        info.pixel_format.bit_depth as nat,
    ) + "\n"@
}

pub fn y4m_header(info: &VideoInfo, luma: Window) -> (r: String)
    ensures
        r@ == header_text(*info, luma.w as nat, luma.h as nat),
{
    let aspect = if info.sar_num > 0 && info.sar_den > 0 {
        plus(
            plus(dec_u64(info.sar_num as u64), ":"),
            dec_u64(info.sar_den as u64).as_str(),
        )
    } else {
        "0:0".to_owned()
    };
    let r = plus("YUV4MPEG2 W".to_owned(), dec_u64(luma.w as u64).as_str());
    let r = plus(plus(r, " H"), dec_u64(luma.h as u64).as_str());
    let r = plus(plus(r, " F"), dec_u64(info.fps_num as u64).as_str());
    let r = plus(plus(r, ":"), dec_u64(info.fps_den as u64).as_str());
    let r = plus(plus(r, " Ip A"), aspect.as_str());
    let r = plus(plus(r, " C"), info.pixel_format.y4m_colorspace().as_str());
    plus(r, "\n")
}

/// The first byte of a row of a part of a plane, with `bps` bytes a sample.
pub open spec fn row_start(win: Window, stride: int, bps: int, row: int) -> int {
    (win.y + row) * stride + win.x * bps
}

/// The bytes of the first `n` rows of a part of a plane, one row after another.
pub open spec fn rows_of(data: Seq<u8>, stride: int, win: Window, bps: int, n: nat) -> Seq<u8>
    decreases n,
{
    if n == 0 {
        Seq::empty()
    } else {
        let start = row_start(win, stride, bps, n - 1);
        rows_of(data, stride, win, bps, (n - 1) as nat) + data.subrange(
            start,
            start + win.w * bps,
        )
    }
}

/// Every row of a part of a plane lies inside the plane's `len` bytes.
pub open spec fn window_fits(len: int, stride: int, win: Window, bps: int) -> bool {
    forall|row: int|
        0 <= row < win.h ==> #[trigger] row_start(win, stride, bps, row) + win.w * bps <= len
}

/// The bytes of the planes of a frame, the first by one window and the others
/// by another.
pub open spec fn planes_bytes(
    planes: Seq<Plane>,
    luma: Window,
    chroma: Window,
    bps: int,
    n: nat,
) -> Seq<u8>
    decreases n,
{
    if n == 0 {
        Seq::empty()
    } else {
        let win = plane_window(luma, chroma, n - 1);
        planes_bytes(planes, luma, chroma, bps, (n - 1) as nat) + rows_of(
            planes[n - 1].data@,
            planes[n - 1].stride as int,
            win,
            bps,
            win.h as nat,
        )
    }
}

pub open spec fn plane_window(luma: Window, chroma: Window, i: int) -> Window {
    if i == 0 {
        luma
    } else {
        chroma
    }
}

/// The marker in front of every frame: `FRAME` and a line feed.
pub open spec fn frame_marker() -> Seq<u8> {
    seq![70u8, 82u8, 65u8, 77u8, 69u8, 10u8]
}

fn append_plane(out: &mut Vec<u8>, plane: &Plane<'_>, win: Window, bps: usize)
    requires
        1 <= bps <= 2,
        window_fits(plane.data@.len() as int, plane.stride as int, win, bps as int),
    ensures
        final(out)@ == old(out)@ + rows_of(
            plane.data@,
            plane.stride as int,
            win,
            bps as int,
            win.h as nat,
        ),
{
    let ghost before = out@;
    let ghost stride = plane.stride as int;
    let len: usize = plane.data.len();
    let mut row: usize = 0;
    assert(before + Seq::<u8>::empty() =~= before);
    while row < win.h
        invariant
            row <= win.h,
            1 <= bps <= 2,
            len == plane.data@.len(),
            stride == plane.stride,
            window_fits(len as int, stride, win, bps as int),
            out@ == before + rows_of(plane.data@, stride, win, bps as int, row as nat),
        decreases win.h - row,
    {
        let ghost start = row_start(win, stride, bps as int, row as int);
        proof {
            assert(start + win.w * bps <= len);
            assert(0 <= (win.y + row) * stride <= start && 0 <= win.x * bps <= start && 0 <= win.w
                * bps && win.x <= win.x * bps && win.w <= win.w * bps) by (nonlinear_arith)
                requires
                    start == (win.y + row) * stride + win.x * bps,
                    stride >= 0,
                    1 <= bps <= 2,
                    win.y >= 0,
                    row >= 0,
                    win.x >= 0,
                    win.w >= 0,
            ;
        }
        let offset: usize = if plane.stride == 0 {
            proof {
                assert((win.y + row) * stride == 0) by (nonlinear_arith)
                    requires
                        stride == 0,
                ;
            }
            0
        } else {
            proof {
                assert(win.y + row <= (win.y + row) * stride) by (nonlinear_arith)
                    requires
                        stride >= 1,
                        win.y + row >= 0,
                ;
            }
            (win.y + row) * plane.stride
        };
        let from: usize = offset + win.x * bps;
        let to: usize = from + win.w * bps;
        assert(from == start && to == start + win.w * bps);
        let bytes = vstd::slice::slice_subrange(plane.data, from, to);
        let ghost so_far = out@;
        out.extend_from_slice(bytes);
        assert(out@ =~= so_far + plane.data@.subrange(start, start + win.w * bps));
        row += 1;
        assert(out@ =~= before + rows_of(plane.data@, stride, win, bps as int, row as nat));
    }
}

/// A frame of the stream: the marker, then the parts of its planes. `planes`
/// are those that the frame has, up to three.
pub fn y4m_frame(
    planes: &[Plane<'_>],
    luma: Window,
    chroma: Window,
    bps: usize,
) -> (r: Vec<u8>)
    requires
        1 <= bps <= 2,
        forall|i: int|
            0 <= i < planes@.len() ==> window_fits(
                (#[trigger] planes@[i]).data@.len() as int,
                planes@[i].stride as int,
                plane_window(luma, chroma, i),
                bps as int,
            ),
    ensures
        r@ == frame_marker() + planes_bytes(planes@, luma, chroma, bps as int, planes@.len()),
{
    let mut out: Vec<u8> = Vec::new();
    out.push(70);
    out.push(82);
    out.push(65);
    out.push(77);
    out.push(69);
    out.push(10);
    assert(out@ =~= frame_marker() + planes_bytes(planes@, luma, chroma, bps as int, 0));
    let mut i: usize = 0;
    while i < planes.len()
        invariant
            i <= planes@.len(),
            1 <= bps <= 2,
            forall|i: int|
                0 <= i < planes@.len() ==> window_fits(
                    (#[trigger] planes@[i]).data@.len() as int,
                    planes@[i].stride as int,
                    plane_window(luma, chroma, i),
                    bps as int,
                ),
            out@ == frame_marker() + planes_bytes(planes@, luma, chroma, bps as int, i as nat),
        decreases planes@.len() - i,
    {
        let win = if i == 0 {
            luma
        } else {
            chroma
        };
        let ghost so_far = out@;
        append_plane(&mut out, &planes[i], win, bps);
        i += 1;
        assert(out@ =~= frame_marker() + planes_bytes(planes@, luma, chroma, bps as int, i as nat));
    }
    out
}

/// The number of rows and of samples a row that a plane of the source has.
pub open spec fn plane_size(info: VideoInfo, i: int) -> Window {
    plane_window(
        luma_window(info, None),
        chroma_window(info.pixel_format.subsampling, luma_window(info, None)),
        i,
    )
}

/// A part that lies inside a plane whose rows are long enough lies inside its
/// bytes.
proof fn lemma_window_fits(len: int, stride: int, size: Window, win: Window, bps: int)
    requires
        1 <= bps <= 2,
        win.x + win.w <= size.w,
        win.y + win.h <= size.h,
        size.w * bps <= stride,
        size.h * stride <= len,
    ensures
        window_fits(len, stride, win, bps),
{
    assert forall|row: int| 0 <= row < win.h implies #[trigger] row_start(win, stride, bps, row)
        + win.w * bps <= len by {
        assert((win.y + row) * stride + win.x * bps + win.w * bps <= len) by (nonlinear_arith)
            requires
                0 <= row,
                win.y + row + 1 <= size.h,
                win.x + win.w <= size.w,
                size.w * bps <= stride,
                size.h * stride <= len,
                1 <= bps <= 2,
                0 <= win.x,
                0 <= win.w,
                0 <= win.y,
        ;
    }
}

/// With a rectangle that has even edges and lies inside the source, or with
/// none, nothing is read outside a plane: every row that is written lies inside
/// the rows of its plane, in each of them.
pub proof fn frames_are_read_inside_their_planes(
    info: VideoInfo,
    crop: Option<Crop>,
    i: int,
    len: int,
    stride: int,
)
    requires
        crop matches Some(c) ==> c.normal(info.width, info.height),
        0 <= i < 3,
        plane_size(info, i).w * info.pixel_format.sample_bytes() <= stride,
        plane_size(info, i).h * stride <= len,
    ensures
        window_fits(
            len,
            stride,
            plane_window(
                luma_window(info, crop),
                chroma_window(info.pixel_format.subsampling, luma_window(info, crop)),
                i,
            ),
            info.pixel_format.sample_bytes() as int,
        ),
{
    let luma = luma_window(info, crop);
    let chroma = chroma_window(info.pixel_format.subsampling, luma);
    let win = plane_window(luma, chroma, i);
    let size = plane_size(info, i);
    lemma_window_fits(len, stride, size, win, info.pixel_format.sample_bytes() as int);
}

proof fn lemma_rows_length(data: Seq<u8>, stride: int, win: Window, bps: int, n: nat)
    requires
        0 <= stride,
        1 <= bps <= 2,
        n <= win.h,
        window_fits(data.len() as int, stride, win, bps),
    ensures
        rows_of(data, stride, win, bps, n).len() == n * (win.w * bps),
    decreases n,
{
    if n > 0 {
        lemma_rows_length(data, stride, win, bps, (n - 1) as nat);
        let start = row_start(win, stride, bps, n - 1);
        assert(start + win.w * bps <= data.len());
        assert(0 <= start && 0 <= win.w * bps && n * (win.w * bps) == (n - 1) * (win.w * bps)
            + win.w * bps) by (nonlinear_arith)
            requires
                start == (win.y + (n - 1)) * stride + win.x * bps,
                n > 0,
                0 <= stride,
                1 <= bps,
                win.w >= 0,
                win.x >= 0,
                win.y >= 0,
        ;
    } else {
        assert(0 * (win.w * bps) == 0) by (nonlinear_arith);
    }
}

/// A frame with three planes has exactly the bytes that a reader of the stream
/// takes for it: the marker, the samples of the first plane, and twice the
/// samples of a chroma plane with halves rounded up.
pub proof fn frames_have_the_length_a_reader_takes(
    planes: Seq<Plane>,
    luma: Window,
    chroma: Window,
    bps: int,
)
    requires
        1 <= bps <= 2,
        planes.len() == 3,
        forall|i: int|
            0 <= i < planes.len() ==> window_fits(
                (#[trigger] planes[i]).data@.len() as int,
                planes[i].stride as int,
                plane_window(luma, chroma, i),
                bps,
            ),
    ensures
        (frame_marker() + planes_bytes(planes, luma, chroma, bps, 3)).len() == 6 + luma.h * (luma.w
            * bps) + 2 * (chroma.h * (chroma.w * bps)),
{
    reveal_with_fuel(planes_bytes, 4);
    lemma_rows_length(planes[0].data@, planes[0].stride as int, luma, bps, luma.h as nat);
    lemma_rows_length(planes[1].data@, planes[1].stride as int, chroma, bps, chroma.h as nat);
    lemma_rows_length(planes[2].data@, planes[2].stride as int, chroma, bps, chroma.h as nat);
}

/// Where a byte of what is written for a part of a plane comes from: row `r` and
/// byte `k` of the part are row `win.y + r` and byte `win.x * bps + k` of the plane.
proof fn lemma_row_bytes(
    data: Seq<u8>,
    stride: int,
    win: Window,
    bps: int,
    n: nat,
    r: int,
    k: int,
)
    requires
        0 <= stride,
        1 <= bps <= 2,
        n <= win.h,
        window_fits(data.len() as int, stride, win, bps),
        0 <= r < n,
        0 <= k < win.w * bps,
    ensures
        0 <= r * (win.w * bps) + k < rows_of(data, stride, win, bps, n).len(),
        rows_of(data, stride, win, bps, n)[r * (win.w * bps) + k] == data[(win.y + r) * stride
            + win.x * bps + k],
    decreases n,
{
    let line = win.w * bps;
    let m = (n - 1) as nat;
    lemma_rows_length(data, stride, win, bps, n);
    lemma_rows_length(data, stride, win, bps, m);
    assert(0 <= r * line && r * line + line <= n * line && m * line + line == n * line)
        by (nonlinear_arith)
        requires
            0 <= r < n,
            m == n - 1,
            line >= 0,
    ;
    let start = row_start(win, stride, bps, m as int);
    assert(start + line <= data.len());
    assert(0 <= start) by (nonlinear_arith)
        requires
            start == (win.y + m) * stride + win.x * bps,
            stride >= 0,
            bps >= 1,
            win.x >= 0,
            win.y >= 0,
            m >= 0,
    ;
    if r < m {
        lemma_row_bytes(data, stride, win, bps, m, r, k);
    } else {
        assert(rows_of(data, stride, win, bps, n)[m * line + k] == data.subrange(
            start,
            start + line,
        )[k]);
    }
}

/// The byte at which a plane of a frame begins in the stream, behind the marker.
pub open spec fn plane_begin(luma: Window, chroma: Window, bps: int, p: int) -> int {
    if p == 0 {
        6
    } else {
        6 + luma.h * (luma.w * bps) + (p - 1) * (chroma.h * (chroma.w * bps))
    }
}

/// Every sample that is written is the sample of the source at its place: row `r` of
/// a part of a plane is row `y + r` of the plane, and begins at column `x`.
pub proof fn samples_come_from_their_places(
    planes: Seq<Plane>,
    luma: Window,
    chroma: Window,
    bps: int,
    p: int,
    r: int,
    k: int,
)
    requires
        1 <= bps <= 2,
        planes.len() == 3,
        part_fits(luma, planes[0], bps),
        part_fits(chroma, planes[1], bps),
        part_fits(chroma, planes[2], bps),
        0 <= p < 3,
        0 <= r < (if p == 0 {
            luma.h
        } else {
            chroma.h
        }),
        0 <= k < (if p == 0 {
            luma.w
        } else {
            chroma.w
        }) * bps,
    ensures
        ({
            let frame = frame_marker() + planes_bytes(planes, luma, chroma, bps, 3);
            let part = if p == 0 {
                luma
            } else {
                chroma
            };
            let at = plane_begin(luma, chroma, bps, p) + r * (part.w * bps) + k;
            &&& 0 <= at < frame.len()
            &&& frame[at] == planes[p].data@[(part.y + r) * planes[p].stride + part.x * bps + k]
        }),
{
    let part = if p == 0 {
        luma
    } else {
        chroma
    };
    assert forall|i: int| 0 <= i < 3 implies window_fits(
        (#[trigger] planes[i]).data@.len() as int,
        planes[i].stride as int,
        plane_window(luma, chroma, i),
        bps,
    ) by {
        let w = plane_window(luma, chroma, i);
        let stride = planes[i].stride as int;
        assert forall|row: int| 0 <= row < w.h implies #[trigger] row_start(w, stride, bps, row)
            + w.w * bps <= planes[i].data@.len() by {
            assert(part_fits(w, planes[i], bps));
            assert(last_byte(w, stride, bps, row) <= planes[i].data@.len());
            assert((w.x + w.w) * bps == w.x * bps + w.w * bps) by (nonlinear_arith);
        }
    }
    let l = rows_of(planes[0].data@, planes[0].stride as int, luma, bps, luma.h as nat);
    let u = rows_of(planes[1].data@, planes[1].stride as int, chroma, bps, chroma.h as nat);
    let v = rows_of(planes[2].data@, planes[2].stride as int, chroma, bps, chroma.h as nat);
    assert(window_fits(planes[0].data@.len() as int, planes[0].stride as int, luma, bps));
    assert(window_fits(planes[1].data@.len() as int, planes[1].stride as int, chroma, bps));
    assert(window_fits(planes[2].data@.len() as int, planes[2].stride as int, chroma, bps));
    lemma_rows_length(planes[0].data@, planes[0].stride as int, luma, bps, luma.h as nat);
    lemma_rows_length(planes[1].data@, planes[1].stride as int, chroma, bps, chroma.h as nat);
    lemma_rows_length(planes[2].data@, planes[2].stride as int, chroma, bps, chroma.h as nat);
    reveal_with_fuel(planes_bytes, 4);
    let frame = frame_marker() + planes_bytes(planes, luma, chroma, bps, 3);
    assert(frame =~= frame_marker() + l + u + v);
    lemma_row_bytes(
        planes[p].data@,
        planes[p].stride as int,
        part,
        bps,
        part.h as nat,
        r,
        k,
    );
    let size = chroma.h * (chroma.w * bps);
    assert((p - 1) * size == (if p == 2 {
        size
    } else if p == 1 {
        0
    } else {
        -size
    })) by (nonlinear_arith)
        requires
            0 <= p < 3,
    ;
    let at = plane_begin(luma, chroma, bps, p) + r * (part.w * bps) + k;
    if p == 0 {
        assert(frame[at] == l[at - 6]);
    } else if p == 1 {
        assert(frame[at] == u[at - 6 - l.len()]);
    } else {
        assert(frame[at] == v[at - 6 - l.len() - u.len()]);
    }
}

/// No row of a part of a plane ends behind the plane.
pub open spec fn part_fits(win: Window, plane: Plane, bps: int) -> bool {
    forall|row: int|
        0 <= row < win.h ==> #[trigger] last_byte(win, plane.stride as int, bps, row)
            <= plane.data@.len()
}

/// The byte behind a row of a part of a plane.
pub open spec fn last_byte(win: Window, stride: int, bps: int, row: int) -> int {
    (win.y + row) * stride + (win.x + win.w) * bps
}

/// What is encoded is the picture inside the crop: the parts of the planes are the
/// rectangle itself, and in the chroma planes the rectangle with as many columns and
/// rows halved as the format halves, so that no sample is shifted against another.
pub proof fn chroma_follows_the_crop(info: VideoInfo, c: Crop)
    requires
        c.w % 2 == 0 && c.h % 2 == 0 && c.x % 2 == 0 && c.y % 2 == 0,
    ensures
        ({
            let luma = luma_window(info, Some(c));
            let chroma = chroma_window(info.pixel_format.subsampling, luma);
            &&& luma.w == c.w && luma.h == c.h && luma.x == c.x && luma.y == c.y
            &&& match info.pixel_format.subsampling {
                PixelSubsampling::Yuv420 => 2 * chroma.w == c.w && 2 * chroma.h == c.h && 2
                    * chroma.x == c.x && 2 * chroma.y == c.y,
                PixelSubsampling::Yuv422 => 2 * chroma.w == c.w && chroma.h == c.h && 2 * chroma.x
                    == c.x && chroma.y == c.y,
                PixelSubsampling::Yuv444 => chroma.w == c.w && chroma.h == c.h && chroma.x == c.x
                    && chroma.y == c.y,
            }
        }),
{
}

/// Without a crop the whole picture is encoded: every sample of every plane, where a
/// chroma plane has a sample for each pixel or for each two, also for the last one of
/// an odd number.
pub proof fn the_whole_picture_is_written(info: VideoInfo)
    ensures
        ({
            let luma = luma_window(info, None);
            let chroma = chroma_window(info.pixel_format.subsampling, luma);
            &&& luma.w == info.width && luma.h == info.height && luma.x == 0 && luma.y == 0
            &&& chroma.x == 0 && chroma.y == 0
            &&& match info.pixel_format.subsampling {
                PixelSubsampling::Yuv420 => info.width <= 2 * chroma.w <= info.width + 1
                    && info.height <= 2 * chroma.h <= info.height + 1,
                PixelSubsampling::Yuv422 => info.width <= 2 * chroma.w <= info.width + 1
                    && chroma.h == info.height,
                PixelSubsampling::Yuv444 => chroma.w == info.width && chroma.h == info.height,
            }
        }),
{
}

proof fn lemma_decimals_lack_blanks(n: nat)
    ensures
        forall|i: int| 0 <= i < dec(n).len() ==> dec(n)[i] != ' ',
{
    crate::number::lemma_dec_digits(n);
    assert forall|i: int| 0 <= i < dec(n).len() implies dec(n)[i] != ' ' by {
        assert(crate::number::is_digit(dec(n)[i]));
    }
}

proof fn lemma_field_lacks_blanks(front: Seq<char>, rest: Seq<char>)
    requires
        forall|i: int| 0 <= i < front.len() ==> front[i] != ' ',
        forall|i: int| 0 <= i < rest.len() ==> rest[i] != ' ',
    ensures
        forall|i: int| 0 <= i < (front + rest).len() ==> (front + rest)[i] != ' ',
{
}

/// The first line of a stream is its name and six fields, with blanks between them: the
/// width and the height of the part that is written, the frame rate, that the frames are
/// progressive, the aspect ratio of the samples, and the colour space.
pub proof fn headers_tell_what_the_frames_are(info: VideoInfo, w: nat, h: nat)
    ensures
        ({
            let line = header_text(info, w, h);
            let fields = split_on(line.drop_last(), ' ');
            &&& line.last() == '\n'
            &&& fields.len() == 7
            &&& fields[0] == "YUV4MPEG2"@
            &&& fields[1] == "W"@ + dec(w)
            &&& fields[2] == "H"@ + dec(h)
            &&& fields[3] == "F"@ + dec(info.fps_num as nat) + ":"@ + dec(info.fps_den as nat)
            &&& fields[4] == "Ip"@
            &&& fields[5] == "A"@ + aspect_text(info)
            &&& fields[6] == "C"@ + colorspace(
                info.pixel_format.subsampling,
                info.pixel_format.bit_depth as nat,
            )
        }),
        info.sar_num > 0 && info.sar_den > 0 ==> aspect_text(info) == dec(info.sar_num as nat)
            + ":"@ + dec(info.sar_den as nat),
        info.sar_num == 0 || info.sar_den == 0 ==> aspect_text(info) == "0:0"@,
{
    reveal_strlit("YUV4MPEG2 W");
    reveal_strlit("YUV4MPEG2");
    reveal_strlit("W");
    reveal_strlit(" H");
    reveal_strlit("H");
    reveal_strlit(" F");
    reveal_strlit("F");
    reveal_strlit(":");
    reveal_strlit(" Ip A");
    reveal_strlit("Ip");
    reveal_strlit("A");
    reveal_strlit(" C");
    reveal_strlit("C");
    reveal_strlit("\n");
    reveal_strlit("0:0");
    let space = colorspace(info.pixel_format.subsampling, info.pixel_format.bit_depth as nat);
    let rate = dec(info.fps_num as nat) + ":"@ + dec(info.fps_den as nat);
    lemma_decimals_lack_blanks(w);
    lemma_decimals_lack_blanks(h);
    lemma_decimals_lack_blanks(info.fps_num as nat);
    lemma_decimals_lack_blanks(info.fps_den as nat);
    lemma_decimals_lack_blanks(info.sar_num as nat);
    lemma_decimals_lack_blanks(info.sar_den as nat);
    lemma_colour_space_lacks_blanks(info.pixel_format);
    let f1 = "W"@ + dec(w);
    let f2 = "H"@ + dec(h);
    let f3 = "F"@ + rate;
    let f5 = "A"@ + aspect_text(info);
    let f6 = "C"@ + space;
    assert("YUV4MPEG2 W"@ =~= "YUV4MPEG2"@ + seq![' '] + "W"@);
    assert(" H"@ =~= seq![' '] + "H"@);
    assert(" F"@ =~= seq![' '] + "F"@);
    assert(" Ip A"@ =~= seq![' '] + "Ip"@ + seq![' '] + "A"@);
    assert(" C"@ =~= seq![' '] + "C"@);
    lemma_header_line(info, w, h, rate);
    lemma_field_lacks_blanks("W"@, dec(w));
    lemma_field_lacks_blanks("H"@, dec(h));
    lemma_field_lacks_blanks(dec(info.fps_num as nat), ":"@);
    lemma_field_lacks_blanks(dec(info.fps_num as nat) + ":"@, dec(info.fps_den as nat));
    lemma_field_lacks_blanks("F"@, rate);
    lemma_field_lacks_blanks(dec(info.sar_num as nat), ":"@);
    lemma_field_lacks_blanks(dec(info.sar_num as nat) + ":"@, dec(info.sar_den as nat));
    lemma_field_lacks_blanks("A"@, aspect_text(info));
    lemma_field_lacks_blanks("C"@, space);
    lemma_seven_fields("YUV4MPEG2"@, f1, f2, f3, "Ip"@, f5, f6);
    assert("F"@ + dec(info.fps_num as nat) + ":"@ + dec(info.fps_den as nat) =~= f3);
    let all = seven_fields("YUV4MPEG2"@, f1, f2, f3, "Ip"@, f5, f6);
    assert((all + "\n"@).drop_last() =~= all);
}

proof fn lemma_colour_space_lacks_blanks(format: PixelFormat)
    ensures
        forall|i: int|
            0 <= i < colorspace(format.subsampling, format.bit_depth as nat).len() ==> colorspace(
                format.subsampling,
                format.bit_depth as nat,
            )[i] != ' ',
{
    reveal_strlit("420");
    reveal_strlit("420p10");
    reveal_strlit("420p12");
    reveal_strlit("422");
    reveal_strlit("422p10");
    reveal_strlit("422p12");
    reveal_strlit("444");
    reveal_strlit("444p10");
    reveal_strlit("444p12");
}

/// Seven fields with blanks between them.
spec fn seven_fields(
    f0: Seq<char>,
    f1: Seq<char>,
    f2: Seq<char>,
    f3: Seq<char>,
    f4: Seq<char>,
    f5: Seq<char>,
    f6: Seq<char>,
) -> Seq<char> {
    let sp = seq![' '];
    f0 + sp + f1 + sp + f2 + sp + f3 + sp + f4 + sp + f5 + sp + f6
}

proof fn lemma_last_two(a: Seq<char>, sp: Seq<char>, x: Seq<char>, y: Seq<char>)
    ensures
        a + sp + x + sp + y == a + sp + (x + sp + y),
{
    assert(a + sp + x + sp + y =~= a + sp + (x + sp + y));
}

proof fn lemma_next_field(a: Seq<char>, sp: Seq<char>, head: Seq<char>, tail: Seq<char>)
    ensures
        a + (sp + head) + tail == a + sp + (head + tail),
{
    assert(a + (sp + head) + tail =~= a + sp + (head + tail));
}

proof fn lemma_three_at_the_end(a: Seq<char>, x: Seq<char>, y: Seq<char>, z: Seq<char>)
    ensures
        a + x + y + z == a + (x + y + z),
{
    assert(a + x + y + z =~= a + (x + y + z));
}

proof fn lemma_seven_fields(
    f0: Seq<char>,
    f1: Seq<char>,
    f2: Seq<char>,
    f3: Seq<char>,
    f4: Seq<char>,
    f5: Seq<char>,
    f6: Seq<char>,
)
    requires
        forall|i: int| 0 <= i < f0.len() ==> f0[i] != ' ',
        forall|i: int| 0 <= i < f1.len() ==> f1[i] != ' ',
        forall|i: int| 0 <= i < f2.len() ==> f2[i] != ' ',
        forall|i: int| 0 <= i < f3.len() ==> f3[i] != ' ',
        forall|i: int| 0 <= i < f4.len() ==> f4[i] != ' ',
        forall|i: int| 0 <= i < f5.len() ==> f5[i] != ' ',
        forall|i: int| 0 <= i < f6.len() ==> f6[i] != ' ',
    ensures
        split_on(seven_fields(f0, f1, f2, f3, f4, f5, f6), ' ') == seq![f0, f1, f2, f3, f4, f5, f6],
{
    let sp = seq![' '];
    let s5 = f5 + sp + f6;
    let s4 = f4 + sp + s5;
    let s3 = f3 + sp + s4;
    let s2 = f2 + sp + s3;
    let s1 = f1 + sp + s2;
    let l1 = f0 + sp + f1;
    let l2 = l1 + sp + f2;
    let l3 = l2 + sp + f3;
    let l4 = l3 + sp + f4;
    lemma_last_two(l4, sp, f5, f6);
    lemma_last_two(l3, sp, f4, s5);
    lemma_last_two(l2, sp, f3, s4);
    lemma_last_two(l1, sp, f2, s3);
    lemma_last_two(f0, sp, f1, s2);
    assert(seven_fields(f0, f1, f2, f3, f4, f5, f6) == f0 + sp + s1);
    lemma_split_part(f0, ' ', s1);
    lemma_split_part(f1, ' ', s2);
    lemma_split_part(f2, ' ', s3);
    lemma_split_part(f3, ' ', s4);
    lemma_split_part(f4, ' ', s5);
    lemma_split_part(f5, ' ', f6);
    lemma_split_whole(f6, ' ');
    assert(split_on(seven_fields(f0, f1, f2, f3, f4, f5, f6), ' ') =~= seq![
        f0,
        f1,
        f2,
        f3,
        f4,
        f5,
        f6,
    ]);
}

proof fn lemma_header_line(info: VideoInfo, w: nat, h: nat, rate: Seq<char>)
    requires
        rate == dec(info.fps_num as nat) + ":"@ + dec(info.fps_den as nat),
        "YUV4MPEG2 W"@ == "YUV4MPEG2"@ + seq![' '] + "W"@,
        " H"@ == seq![' '] + "H"@,
        " F"@ == seq![' '] + "F"@,
        " Ip A"@ == seq![' '] + "Ip"@ + seq![' '] + "A"@,
        " C"@ == seq![' '] + "C"@,
    ensures
        header_text(info, w, h) == seven_fields(
            "YUV4MPEG2"@,
            "W"@ + dec(w),
            "H"@ + dec(h),
            "F"@ + rate,
            "Ip"@,
            "A"@ + aspect_text(info),
            "C"@ + colorspace(info.pixel_format.subsampling, info.pixel_format.bit_depth as nat),
        ) + "\n"@,
{
    let sp = seq![' '];
    let space = colorspace(info.pixel_format.subsampling, info.pixel_format.bit_depth as nat);
    let n = dec(info.fps_num as nat);
    let d = dec(info.fps_den as nat);
    let l1 = "YUV4MPEG2"@ + sp + ("W"@ + dec(w));
    let l2 = l1 + sp + ("H"@ + dec(h));
    let l3 = l2 + sp + ("F"@ + rate);
    let l4 = l3 + sp + "Ip"@;
    let l5 = l4 + sp + ("A"@ + aspect_text(info));
    assert("YUV4MPEG2 W"@ + dec(w) =~= l1);
    lemma_next_field(l1, sp, "H"@, dec(h));
    lemma_three_at_the_end(l2 + " F"@, n, ":"@, d);
    lemma_next_field(l2, sp, "F"@, rate);
    assert(l3 + " Ip A"@ =~= l4 + (sp + "A"@));
    lemma_next_field(l4, sp, "A"@, aspect_text(info));
    lemma_next_field(l5, sp, "C"@, space);
}

/// A crop shows the part of the whole picture that it is: the sample in row `r` and
/// column `c` of a cropped frame is the one in row `y + r` and column `x + c` of the frame
/// that is written without the crop, in every plane.
pub proof fn a_crop_is_a_part_of_the_whole(
    planes: Seq<Plane>,
    cropped: (Window, Window),
    uncut: (Window, Window),
    bps: int,
    p: int,
    r: int,
    k: int,
)
    requires
        1 <= bps <= 2,
        planes.len() == 3,
        0 <= p < 3,
        uncut.0.x == 0 && uncut.0.y == 0 && uncut.1.x == 0 && uncut.1.y == 0,
        cropped.0.x + cropped.0.w <= uncut.0.w && cropped.0.y + cropped.0.h <= uncut.0.h,
        cropped.1.x + cropped.1.w <= uncut.1.w && cropped.1.y + cropped.1.h <= uncut.1.h,
        part_fits(uncut.0, planes[0], bps) && part_fits(uncut.1, planes[1], bps) && part_fits(
            uncut.1,
            planes[2],
            bps,
        ),
        part_fits(cropped.0, planes[0], bps) && part_fits(cropped.1, planes[1], bps) && part_fits(
            cropped.1,
            planes[2],
            bps,
        ),
        0 <= r < (if p == 0 {
            cropped.0.h
        } else {
            cropped.1.h
        }),
        0 <= k < (if p == 0 {
            cropped.0.w
        } else {
            cropped.1.w
        }) * bps,
    ensures
        ({
            let small = frame_marker() + planes_bytes(planes, cropped.0, cropped.1, bps, 3);
            let large = frame_marker() + planes_bytes(planes, uncut.0, uncut.1, bps, 3);
            let (part, whole) = if p == 0 {
                (cropped.0, uncut.0)
            } else {
                (cropped.1, uncut.1)
            };
            small[plane_begin(cropped.0, cropped.1, bps, p) + r * (part.w * bps) + k]
                == large[plane_begin(uncut.0, uncut.1, bps, p) + (part.y + r) * (whole.w * bps)
                + (part.x * bps + k)]
        }),
{
    let (part, whole) = if p == 0 {
        (cropped.0, uncut.0)
    } else {
        (cropped.1, uncut.1)
    };
    samples_come_from_their_places(planes, cropped.0, cropped.1, bps, p, r, k);
    assert(0 <= part.x * bps + k < whole.w * bps) by (nonlinear_arith)
        requires
            part.x + part.w <= whole.w,
            0 <= k < part.w * bps,
            1 <= bps,
            0 <= part.x,
    ;
    samples_come_from_their_places(
        planes,
        uncut.0,
        uncut.1,
        bps,
        p,
        part.y + r,
        part.x * bps + k,
    );
    assert(whole.x * bps == 0) by (nonlinear_arith)
        requires
            whole.x == 0,
    ;
}

/// A crop is accepted exactly when it is not empty, its edges are even and it lies inside
/// the source; the part of the picture that is written is then the crop.
pub proof fn crops_have_to_fit_the_source(
    info: &VideoInfo,
    c: Crop,
    r: Result<(Window, Window), CropError>,
)
    requires
        call_ensures(frame_windows, (info, Some(c)), r),
    ensures
        r is Ok <==> 0 < c.w && 0 < c.h && c.w % 2 == 0 && c.h % 2 == 0 && c.x % 2 == 0 && c.y % 2
            == 0 && c.x + c.w <= info.width && c.y + c.h <= info.height,
        r matches Ok((luma, _)) ==> luma.w == c.w && luma.h == c.h && luma.x == c.x && luma.y
            == c.y,
        r matches Ok((luma, chroma)) ==> chroma == chroma_window(
            info.pixel_format.subsampling,
            luma,
        ),
        forall|whole: Result<(Window, Window), CropError>| #[trigger]
            call_ensures(frame_windows, (info, None), whole) ==> whole is Ok,
{
    let e = c.evened();
    assert(c == e <==> c.w == e.w && c.h == e.h && c.x == e.x && c.y == e.y);
}

/// A refused crop is named as its filter writes it, and so is the size of the source.
pub proof fn refused_crops_are_named(e: CropError)
    ensures
        e.text() == "crop "@ + crate::ffms2::filter_of(e.crop).skip(5) + " does not fit source "@
            + dec(e.width as nat) + "x"@ + dec(e.height as nat) + " (or has odd edges)"@,
{
    reveal_strlit("crop=");
    let c = e.crop;
    let f = crate::ffms2::filter_of(c);
    let rest = dec(c.w as nat) + ":"@ + dec(c.h as nat) + ":"@ + dec(c.x as nat) + ":"@ + dec(
        c.y as nat,
    );
    assert(f.skip(5) =~= rest);
    assert("crop "@ + dec(c.w as nat) + ":"@ + dec(c.h as nat) + ":"@ + dec(c.x as nat) + ":"@ + dec(
        c.y as nat,
    ) =~= "crop "@ + rest);
}

} // verus!
