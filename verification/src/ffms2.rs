//! Frames of a video: rectangles in them, their pixel formats, and how they
//! are written as a YUV4MPEG2 stream.
use vstd::prelude::*;

use crate::number::{dec, dec_u64, is_digit, lemma_dec_digits, parse_nat, parse_of_dec,
    parse_u32};
use crate::text::{from_chars, has_prefix, lemma_split_part, lemma_split_whole, opt_str, plus,
    split, split_on, starts_with, to_chars};

verus! {

/// A rectangle of `w` by `h` pixels whose upper left corner is at (`x`, `y`).
#[derive(Debug, Clone, Copy, PartialEq, Eq, Structural)]
pub struct Crop {
    pub w: u32,
    pub h: u32,
    pub x: u32,
    pub y: u32,
}

/// `s` without any `p` at its start, however often it stands there.
pub open spec fn without_prefixes(s: Seq<char>, p: Seq<char>) -> Seq<char>
    decreases s.len(),
{
    if p.len() > 0 && has_prefix(s, p) {
        without_prefixes(s.skip(p.len() as int), p)
    } else {
        s
    }
}

pub open spec fn parse_dimension(s: Seq<char>) -> Option<nat> {
    parse_nat(s, u32::MAX as nat)
}

/// The rectangle that is written as `crop=W:H:X:Y` or as `W:H:X:Y`.
pub open spec fn crop_of(s: Seq<char>) -> Option<Crop> {
    let p = split_on(without_prefixes(s, "crop="@), ':');
    if p.len() != 4 {
        None
    } else {
        match (
            parse_dimension(p[0]),
            parse_dimension(p[1]),
            parse_dimension(p[2]),
            parse_dimension(p[3]),
        ) {
            (Some(w), Some(h), Some(x), Some(y)) => Some(
                Crop { w: w as u32, h: h as u32, x: x as u32, y: y as u32 },
            ),
            _ => None,
        }
    }
}

/// How a rectangle is written as a filter.
pub open spec fn filter_of(c: Crop) -> Seq<char> {
    "crop="@ + dec(c.w as nat) + ":"@ + dec(c.h as nat) + ":"@ + dec(c.x as nat) + ":"@ + dec(
        c.y as nat,
    )
}

/// The even number at or just below `v`.
pub open spec fn even_below(v: u32) -> u32 {
    (v - v % 2) as u32
}

impl Crop {
    /// The rectangle with every edge rounded down to an even number.
    pub open spec fn evened(self) -> Crop {
        Crop {
            w: even_below(self.w),
            h: even_below(self.h),
            x: even_below(self.x),
            y: even_below(self.y),
        }
    }

    /// The rectangle is not empty and lies inside a frame of the given size.
    pub open spec fn inside(self, src_w: u32, src_h: u32) -> bool {
        &&& 0 < self.w && self.x + self.w <= src_w
        &&& 0 < self.h && self.y + self.h <= src_h
    }

    /// The rectangle has even edges and lies inside a frame of the given size.
    pub open spec fn normal(self, src_w: u32, src_h: u32) -> bool {
        self == self.evened() && self.inside(src_w, src_h)
    }

    /// Every pixel of `other` is one of this rectangle.
    pub open spec fn contains(self, other: Crop) -> bool {
        &&& self.x <= other.x && other.x + other.w <= self.x + self.w
        &&& self.y <= other.y && other.y + other.h <= self.y + self.h
    }

    /// The right and lower edges are in the range of a coordinate.
    pub open spec fn in_range(self) -> bool {
        self.x + self.w <= u32::MAX && self.y + self.h <= u32::MAX
    }

    pub fn from_str(s: &str) -> (r: Option<Self>)
        ensures
            r == crop_of(s@),
    {
        let prefix = "crop=";
        let chars = to_chars(s);
        proof {
            reveal_strlit("crop=");
        }
        let end: usize = chars.len();
        let mut from: usize = 0;
        let mut rest = s.to_owned();
        while starts_with(rest.as_str(), prefix)
            invariant
                prefix@ == "crop="@,
                prefix@.len() == 5,
                chars@ == s@,
                from <= end,
                end == chars@.len(),
                rest@ == chars@.skip(from as int),
                without_prefixes(rest@, prefix@) == without_prefixes(s@, prefix@),
            decreases chars@.len() - from,
        {
            from += 5;
            let ghost before = rest@;
            rest = from_chars(&chars, from, end);
            assert(rest@ =~= before.skip(5));
            assert(rest@ =~= chars@.skip(from as int));
        }
        let parts = split(rest.as_str(), ':');
        let ghost p = split_on(rest@, ':');
        assert(p.len() == parts@.len());
        if parts.len() != 4 {
            return None;
        }
        assert(p[0] == parts@[0]@ && p[1] == parts@[1]@ && p[2] == parts@[2]@ && p[3]
            == parts@[3]@);
        let w = parse_u32(parts[0].as_str());
        let h = parse_u32(parts[1].as_str());
        let x = parse_u32(parts[2].as_str());
        let y = parse_u32(parts[3].as_str());
        match (w, h, x, y) {
            (Some(w), Some(h), Some(x), Some(y)) => Some(Crop { w, h, x, y }),
            _ => None,
        }
    }

    /// The rectangle with even edges, if it then is one inside the source.
    pub fn normalized(self, src_w: u32, src_h: u32) -> (r: Option<Self>)
        ensures
            r == (if self.evened().inside(src_w, src_h) {
                Some(self.evened())
            } else {
                None
            }),
    {
        let c = Crop {
            w: self.w - self.w % 2,
            h: self.h - self.h % 2,
            x: self.x - self.x % 2,
            y: self.y - self.y % 2,
        };
        if c.w == 0 || c.h == 0 {
            return None;
        }
        let right: u64 = c.x as u64 + c.w as u64;
        let bottom: u64 = c.y as u64 + c.h as u64;
        if right > src_w as u64 || bottom > src_h as u64 {
            return None;
        }
        Some(c)
    }

    pub fn to_filter(self) -> (r: String)
        ensures
            r@ == filter_of(self),
    {
        let r = plus("crop=".to_owned(), dec_u64(self.w as u64).as_str());
        let r = plus(plus(r, ":"), dec_u64(self.h as u64).as_str());
        let r = plus(plus(r, ":"), dec_u64(self.x as u64).as_str());
        plus(plus(r, ":"), dec_u64(self.y as u64).as_str())
    }

    /// The smallest rectangle that contains both. An edge beyond the range of a
    /// coordinate is moved to its greatest value.
    pub fn union(self, other: Self) -> (r: Self)
        ensures
            r == union_of(self, other),
    {
        let x: u32 = if self.x < other.x {
            self.x
        } else {
            other.x
        };
        let y: u32 = if self.y < other.y {
            self.y
        } else {
            other.y
        };
        let r1: u32 = self.x.saturating_add(self.w);
        let r2: u32 = other.x.saturating_add(other.w);
        let right: u32 = if r1 > r2 {
            r1
        } else {
            r2
        };
        let b1: u32 = self.y.saturating_add(self.h);
        let b2: u32 = other.y.saturating_add(other.h);
        let bottom: u32 = if b1 > b2 {
            b1
        } else {
            b2
        };
        Crop { w: right - x, h: bottom - y, x, y }
    }
}

pub open spec fn min_int(a: int, b: int) -> int {
    if a < b {
        a
    } else {
        b
    }
}

pub open spec fn max_int(a: int, b: int) -> int {
    if a > b {
        a
    } else {
        b
    }
}

/// The edge at `start + size`, or the greatest coordinate if that is less.
pub open spec fn edge(start: u32, size: u32) -> int {
    min_int(start + size, u32::MAX as int)
}

pub open spec fn union_of(a: Crop, b: Crop) -> Crop {
    let x = min_int(a.x as int, b.x as int);
    let y = min_int(a.y as int, b.y as int);
    let right = max_int(edge(a.x, a.w), edge(b.x, b.w));
    let bottom = max_int(edge(a.y, a.h), edge(b.y, b.h));
    Crop { w: (right - x) as u32, h: (bottom - y) as u32, x: x as u32, y: y as u32 }
}

/// The union of two rectangles contains both, so that nothing that a sample
/// shows is cut away.
pub proof fn union_contains_both(a: Crop, b: Crop)
    requires
        a.in_range(),
        b.in_range(),
    ensures
        union_of(a, b).contains(a),
        union_of(a, b).contains(b),
        union_of(a, b).in_range(),
{
}

/// Whatever contains two rectangles contains their union.
pub proof fn union_is_the_smallest(a: Crop, b: Crop, c: Crop)
    requires
        a.in_range(),
        b.in_range(),
        c.contains(a),
        c.contains(b),
    ensures
        c.contains(union_of(a, b)),
{
}

/// The order in which rectangles are united makes no difference.
pub proof fn union_order_is_free(a: Crop, b: Crop, c: Crop)
    ensures
        union_of(a, b) == union_of(b, a),
        union_of(union_of(a, b), c) == union_of(a, union_of(b, c)),
{
}

/// A rectangle with even edges inside the source is left as it is, and what
/// normalizing gives is such a rectangle, contained in the frame.
pub proof fn normalizing_is_idempotent(c: Crop, src_w: u32, src_h: u32)
    requires
        c.evened().inside(src_w, src_h),
    ensures
        c.evened().normal(src_w, src_h),
        c.evened().evened() == c.evened(),
        (Crop { w: src_w, h: src_h, x: 0, y: 0 }).contains(c.evened()),
{
}

proof fn lemma_no_colon(n: nat)
    ensures
        forall|i: int| 0 <= i < dec(n).len() ==> dec(n)[i] != ':',
{
    lemma_dec_digits(n);
    assert forall|i: int| 0 <= i < dec(n).len() implies dec(n)[i] != ':' by {
        assert(is_digit(dec(n)[i]));
    }
}

/// Reading back the filter of a rectangle gives the rectangle.
pub proof fn filter_reads_back(c: Crop)
    ensures
        crop_of(filter_of(c)) == Some(c),
{
    reveal_strlit("crop=");
    reveal_strlit(":");
    let w = dec(c.w as nat);
    let h = dec(c.h as nat);
    let x = dec(c.x as nat);
    let y = dec(c.y as nat);
    let s = filter_of(c);
    let body = w + seq![':'] + (h + seq![':'] + (x + seq![':'] + y));
    assert(":"@ =~= seq![':']);
    assert(s =~= "crop="@ + body);
    assert(s.take(5) =~= "crop="@);
    assert(s.skip(5) =~= body);
    lemma_dec_digits(c.w as nat);
    assert(is_digit(w[0]));
    assert(body[0] == w[0]);
    assert(!has_prefix(body, "crop="@)) by {
        if has_prefix(body, "crop="@) {
            assert(body.take(5)[0] == body[0]);
            assert("crop="@[0] == 'c');
        }
    }
    reveal_with_fuel(without_prefixes, 2);
    assert(without_prefixes(s, "crop="@) == body);
    lemma_no_colon(c.w as nat);
    lemma_no_colon(c.h as nat);
    lemma_no_colon(c.x as nat);
    lemma_no_colon(c.y as nat);
    lemma_split_part(w, ':', h + seq![':'] + (x + seq![':'] + y));
    lemma_split_part(h, ':', x + seq![':'] + y);
    lemma_split_part(x, ':', y);
    lemma_split_whole(y, ':');
    let p = split_on(body, ':');
    assert(p =~= seq![w, h, x, y]);
    parse_of_dec(c.w as nat, u32::MAX as nat);
    parse_of_dec(c.h as nat, u32::MAX as nat);
    parse_of_dec(c.x as nat, u32::MAX as nat);
    parse_of_dec(c.y as nat, u32::MAX as nat);
}

#[derive(Debug, Clone, Copy, PartialEq, Eq, Structural)]
pub enum PixelSubsampling {
    Yuv420,
    Yuv422,
    Yuv444,
}

/// How the decoder hands out pixels; `pix_fmt` is its own number for that.
#[derive(Debug, Clone, Copy, PartialEq, Eq, Structural)]
pub struct PixelFormat {
    pub pix_fmt: i32,
    pub bit_depth: u32,
    pub subsampling: PixelSubsampling,
}

/// The name of a colour space in the header of a YUV4MPEG2 stream. What has
/// none is called 4:2:0 with eight bits.
pub open spec fn colorspace(sub: PixelSubsampling, depth: nat) -> Seq<char> {
    match sub {
        PixelSubsampling::Yuv420 => if depth == 10 {
            "420p10"@
        } else if depth == 12 {
            "420p12"@
        } else {
            "420"@
        },
        PixelSubsampling::Yuv422 => if depth == 8 {
            "422"@
        } else if depth == 10 {
            "422p10"@
        } else if depth == 12 {
            "422p12"@
        } else {
            "420"@
        },
        PixelSubsampling::Yuv444 => if depth == 8 {
            "444"@
        } else if depth == 10 {
            "444p10"@
        } else if depth == 12 {
            "444p12"@
        } else {
            "420"@
        },
    }
}

impl PixelFormat {
    pub open spec fn sample_bytes(self) -> nat {
        if self.bit_depth > 8 {
            2
        } else {
            1
        }
    }

    pub fn y4m_colorspace(&self) -> (r: String)
        ensures
            r@ == colorspace(self.subsampling, self.bit_depth as nat),
    {
        let depth: u32 = self.bit_depth;
        let name = match self.subsampling {
            PixelSubsampling::Yuv420 => if depth == 10 {
                "420p10"
            } else if depth == 12 {
                "420p12"
            } else {
                "420"
            },
            PixelSubsampling::Yuv422 => if depth == 8 {
                "422"
            } else if depth == 10 {
                "422p10"
            } else if depth == 12 {
                "422p12"
            } else {
                "420"
            },
            PixelSubsampling::Yuv444 => if depth == 8 {
                "444"
            } else if depth == 10 {
                "444p10"
            } else if depth == 12 {
                "444p12"
            } else {
                "420"
            },
        };
        name.to_owned()
    }

    pub fn bytes_per_sample(&self) -> (r: usize)
        ensures
            r == self.sample_bytes(),
    {
        if self.bit_depth > 8 {
            2
        } else {
            1
        }
    }
}

/// The name of the pixel format with the given subsampling and depth, for the
/// depths that the encoder accepts.
pub open spec fn format_name(sub: PixelSubsampling, depth: nat) -> Option<Seq<char>> {
    if depth == 8 {
        Some(
            match sub {
                PixelSubsampling::Yuv420 => "yuv420p"@,
                PixelSubsampling::Yuv422 => "yuv422p"@,
                PixelSubsampling::Yuv444 => "yuv444p"@,
            },
        )
    } else if depth == 10 {
        Some(
            match sub {
                PixelSubsampling::Yuv420 => "yuv420p10le"@,
                PixelSubsampling::Yuv422 => "yuv422p10le"@,
                PixelSubsampling::Yuv444 => "yuv444p10le"@,
            },
        )
    } else {
        None
    }
}

pub fn pixfmt_for(sub: PixelSubsampling, depth: u8) -> (r: Option<&'static str>)
    ensures
        opt_str(r) == format_name(sub, depth as nat),
{
    if depth == 8 {
        Some(
            match sub {
                PixelSubsampling::Yuv420 => "yuv420p",
                PixelSubsampling::Yuv422 => "yuv422p",
                PixelSubsampling::Yuv444 => "yuv444p",
            },
        )
    } else if depth == 10 {
        Some(
            match sub {
                PixelSubsampling::Yuv420 => "yuv420p10le",
                PixelSubsampling::Yuv422 => "yuv422p10le",
                PixelSubsampling::Yuv444 => "yuv444p10le",
            },
        )
    } else {
        None
    }
}

/// The pixel formats that are recognized: their names, depths and subsamplings.
pub open spec fn known_formats() -> Seq<(Seq<char>, u32, PixelSubsampling)> {
    seq![
        ("yuv420p"@, 8u32, PixelSubsampling::Yuv420),
        ("yuvj420p"@, 8u32, PixelSubsampling::Yuv420),
        ("yuv420p10le"@, 10u32, PixelSubsampling::Yuv420),
        ("yuv420p12le"@, 12u32, PixelSubsampling::Yuv420),
        ("yuv420p16le"@, 16u32, PixelSubsampling::Yuv420),
        ("yuv422p"@, 8u32, PixelSubsampling::Yuv422),
        ("yuv422p10le"@, 10u32, PixelSubsampling::Yuv422),
        ("yuv422p12le"@, 12u32, PixelSubsampling::Yuv422),
        ("yuv444p"@, 8u32, PixelSubsampling::Yuv444),
        ("yuv444p10le"@, 10u32, PixelSubsampling::Yuv444),
        ("yuv444p12le"@, 12u32, PixelSubsampling::Yuv444),
    ]
}

/// The number of pixel formats that are recognized.
pub const FORMAT_COUNT: usize = 11;

/// The recognized pixel format at position `i`.
pub fn known_format(i: usize) -> (r: (&'static str, u32, PixelSubsampling))
    requires
        i < FORMAT_COUNT,
    ensures
        (r.0@, r.1, r.2) == known_formats()[i as int],
{
    let table: [(&'static str, u32, PixelSubsampling); 11] = [
        ("yuv420p", 8, PixelSubsampling::Yuv420),
        ("yuvj420p", 8, PixelSubsampling::Yuv420),
        ("yuv420p10le", 10, PixelSubsampling::Yuv420),
        ("yuv420p12le", 12, PixelSubsampling::Yuv420),
        ("yuv420p16le", 16, PixelSubsampling::Yuv420),
        ("yuv422p", 8, PixelSubsampling::Yuv422),
        ("yuv422p10le", 10, PixelSubsampling::Yuv422),
        ("yuv422p12le", 12, PixelSubsampling::Yuv422),
        ("yuv444p", 8, PixelSubsampling::Yuv444),
        ("yuv444p10le", 10, PixelSubsampling::Yuv444),
        ("yuv444p12le", 12, PixelSubsampling::Yuv444),
    ];
    table[i]
}

/// The recognized format among the last ones, from position `i` on, that the
/// decoder numbers `pix_fmt`; `ids` holds its numbers for all of them. One that
/// is not recognized is taken for the first of them.
pub open spec fn format_from(pix_fmt: i32, ids: Seq<i32>, i: int) -> PixelFormat
    decreases FORMAT_COUNT - i,
{
    if i >= FORMAT_COUNT {
        PixelFormat {
            pix_fmt: ids[0],
            bit_depth: known_formats()[0].1,
            subsampling: known_formats()[0].2,
        }
    } else if pix_fmt == ids[i] {
        PixelFormat {
            pix_fmt,
            bit_depth: known_formats()[i].1,
            subsampling: known_formats()[i].2,
        }
    } else {
        format_from(pix_fmt, ids, i + 1)
    }
}

/// The format that the decoder numbers `pix_fmt`; `ids` holds the numbers of
/// the recognized formats in their order.
pub fn detect_pixel_format(pix_fmt: i32, ids: &[i32]) -> (r: PixelFormat)
    requires
        ids@.len() == FORMAT_COUNT,
    ensures
        r == format_from(pix_fmt, ids@, 0),
{
    let mut i: usize = 0;
    while i < FORMAT_COUNT
        invariant
            i <= FORMAT_COUNT,
            ids@.len() == FORMAT_COUNT,
            format_from(pix_fmt, ids@, 0) == format_from(pix_fmt, ids@, i as int),
        decreases FORMAT_COUNT - i,
    {
        if pix_fmt == ids[i] {
            let (_, bit_depth, subsampling) = known_format(i);
            return PixelFormat { pix_fmt, bit_depth, subsampling };
        }
        i += 1;
    }
    let (_, bit_depth, subsampling) = known_format(0);
    PixelFormat { pix_fmt: ids[0], bit_depth, subsampling }
}

/// A format is recognized by its own number, and with it its depth and its
/// subsampling, as long as the decoder numbers no two formats alike.
pub proof fn formats_are_recognized(ids: Seq<i32>, k: int)
    requires
        ids.len() == FORMAT_COUNT,
        0 <= k < FORMAT_COUNT,
        forall|i: int, j: int| 0 <= i < j < ids.len() ==> ids[i] != ids[j],
    ensures
        format_from(ids[k], ids, 0) == (PixelFormat {
            pix_fmt: ids[k],
            bit_depth: known_formats()[k].1,
            subsampling: known_formats()[k].2,
        }),
{
    reveal_with_fuel(format_from, 12);
}

#[derive(Debug, Clone, Copy, PartialEq, Eq, Structural)]
pub struct OpenOpts {
    /// The bit depth to convert to; none to keep the one of the source.
    pub target_bit_depth: Option<u8>,
}

impl Default for OpenOpts {
    fn default() -> (r: Self)
        ensures
            r.target_bit_depth is None,
    {
        OpenOpts { target_bit_depth: None }
    }
}

/// There is no pixel format with the given subsampling and depth.
#[derive(Debug, Clone, Copy, PartialEq, Eq, Structural)]
pub struct NoFormat {
    pub subsampling: PixelSubsampling,
    pub depth: u8,
}

/// The depth that frames are to have: the one asked for, or else ten bits for
/// a deeper source, since the encoder takes no more; none to keep the source's.
pub open spec fn wanted_depth(format: PixelFormat, opts: OpenOpts) -> Option<u8> {
    match opts.target_bit_depth {
        Some(depth) => Some(depth),
        None => if format.bit_depth > 10 {
            Some(10u8)
        } else {
            None
        },
    }
}

/// The conversion that frames of the given format need: the depth and the name
/// of the format to convert to, or none where the source's own will do.
pub fn depth_conversion(format: PixelFormat, opts: OpenOpts) -> (r: Result<
    Option<(u8, &'static str)>,
    NoFormat,
>)
    ensures
        match wanted_depth(format, opts) {
            Some(depth) if depth as u32 != format.bit_depth => match format_name(
                format.subsampling,
                depth as nat,
            ) {
                Some(name) => r matches Ok(Some((d, n))) && d == depth && n@ == name,
                None => r == Err::<Option<(u8, &'static str)>, NoFormat>(
                    NoFormat { subsampling: format.subsampling, depth },
                ),
            },
            _ => r matches Ok(None),
        },
{
    let wanted = match opts.target_bit_depth {
        Some(depth) => Some(depth),
        None => if format.bit_depth > 10 {
            Some(10u8)
        } else {
            None
        },
    };
    match wanted {
        Some(depth) => {
            if depth as u32 == format.bit_depth {
                return Ok(None);
            }
            match pixfmt_for(format.subsampling, depth) {
                Some(name) => Ok(Some((depth, name))),
                None => Err(NoFormat { subsampling: format.subsampling, depth }),
            }
        },
        None => Ok(None),
    }
}

/// The format after a conversion to the given depth, which the decoder numbers
/// `pix_fmt`.
pub open spec fn converted(format: PixelFormat, pix_fmt: i32, depth: u8) -> PixelFormat {
    PixelFormat { pix_fmt, bit_depth: depth as u32, subsampling: format.subsampling }
}

impl PixelFormat {
    pub fn with_depth(self, pix_fmt: i32, depth: u8) -> (r: PixelFormat)
        ensures
            r == converted(self, pix_fmt, depth),
    {
        PixelFormat { pix_fmt, bit_depth: depth as u32, subsampling: self.subsampling }
    }
}

/// Whatever recognized format the source has, with the depths that a profile
/// may ask for there is always a conversion, and the frames that reach the
/// encoder have eight or ten bits.
pub proof fn encoder_gets_eight_or_ten_bits(format: PixelFormat, opts: OpenOpts)
    requires
        exists|k: int|
            0 <= k < FORMAT_COUNT && format.bit_depth == #[trigger] known_formats()[k].1,
        opts.target_bit_depth is None || opts.target_bit_depth == Some(8u8)
            || opts.target_bit_depth == Some(10u8),
    ensures
        match wanted_depth(format, opts) {
            Some(depth) => (depth == 8 || depth == 10) && format_name(
                format.subsampling,
                depth as nat,
            ) is Some,
            None => format.bit_depth == 8 || format.bit_depth == 10,
        },
{
}

/// Rounding to an even edge moves it by at most one pixel, and never outward.
pub proof fn even_edges_are_next_to_the_edges(v: u32)
    ensures
        even_below(v) % 2 == 0,
        v - 1 <= even_below(v) <= v,
{
}

/// The name of a colour space says how the chroma planes are sampled, and, for more
/// than eight bits, how many bits a sample has.
pub proof fn colour_spaces_are_named_for_their_format(sub: PixelSubsampling)
    ensures
        ({
            let chroma = match sub {
                PixelSubsampling::Yuv420 => "420"@,
                PixelSubsampling::Yuv422 => "422"@,
                PixelSubsampling::Yuv444 => "444"@,
            };
            &&& colorspace(sub, 8) == chroma
            &&& colorspace(sub, 10) == chroma + "p10"@
            &&& colorspace(sub, 12) == chroma + "p12"@
            &&& format_name(sub, 8) == Some("yuv"@ + chroma + "p"@)
            &&& format_name(sub, 10) == Some("yuv"@ + chroma + "p10le"@)
            &&& forall|depth: nat|
                depth != 8 && depth != 10 ==> #[trigger] format_name(sub, depth) is None
        }),
{
    reveal_strlit("420");
    reveal_strlit("422");
    reveal_strlit("444");
    reveal_strlit("p10");
    reveal_strlit("p12");
    reveal_strlit("420p10");
    reveal_strlit("420p12");
    reveal_strlit("422p10");
    reveal_strlit("422p12");
    reveal_strlit("444p10");
    reveal_strlit("444p12");
    reveal_strlit("yuv");
    reveal_strlit("p");
    reveal_strlit("p10le");
    reveal_strlit("yuv420p");
    reveal_strlit("yuv422p");
    reveal_strlit("yuv444p");
    reveal_strlit("yuv420p10le");
    reveal_strlit("yuv422p10le");
    reveal_strlit("yuv444p10le");
    assert("420p10"@ =~= "420"@ + "p10"@);
    assert("420p12"@ =~= "420"@ + "p12"@);
    assert("422p10"@ =~= "422"@ + "p10"@);
    assert("422p12"@ =~= "422"@ + "p12"@);
    assert("444p10"@ =~= "444"@ + "p10"@);
    assert("444p12"@ =~= "444"@ + "p12"@);
    assert("yuv420p"@ =~= "yuv"@ + "420"@ + "p"@);
    assert("yuv422p"@ =~= "yuv"@ + "422"@ + "p"@);
    assert("yuv444p"@ =~= "yuv"@ + "444"@ + "p"@);
    assert("yuv420p10le"@ =~= "yuv"@ + "420"@ + "p10le"@);
    assert("yuv422p10le"@ =~= "yuv"@ + "422"@ + "p10le"@);
    assert("yuv444p10le"@ =~= "yuv"@ + "444"@ + "p10le"@);
}

/// A sample takes as many bytes as its bits fill, up to sixteen bits.
pub proof fn samples_fill_their_bytes(f: PixelFormat)
    requires
        1 <= f.bit_depth <= 16,
    ensures
        f.bit_depth <= 8 * f.sample_bytes(),
        8 * (f.sample_bytes() - 1) < f.bit_depth,
{
}

/// Each recognized format has the depth that its name ends with, and the chroma
/// planes that it begins with.
pub proof fn recognized_formats_are_what_they_are_called(k: int)
    requires
        0 <= k < FORMAT_COUNT,
    ensures
        ({
            let (name, depth, sub) = known_formats()[k];
            let digits = match sub {
                PixelSubsampling::Yuv420 => "420p"@,
                PixelSubsampling::Yuv422 => "422p"@,
                PixelSubsampling::Yuv444 => "444p"@,
            };
            &&& depth == 8 ==> name == "yuv"@ + digits || name == "yuvj"@ + digits
            &&& depth != 8 ==> name == "yuv"@ + digits + crate::number::dec(depth as nat) + "le"@
            &&& depth == 8 || depth == 10 || depth == 12 || depth == 16
        }),
{
    reveal_strlit("420p");
    reveal_strlit("422p");
    reveal_strlit("444p");
    reveal_strlit("yuv");
    reveal_strlit("yuvj");
    reveal_strlit("le");
    reveal_strlit("yuv420p");
    reveal_strlit("yuvj420p");
    reveal_strlit("yuv420p10le");
    reveal_strlit("yuv420p12le");
    reveal_strlit("yuv420p16le");
    reveal_strlit("yuv422p");
    reveal_strlit("yuv422p10le");
    reveal_strlit("yuv422p12le");
    reveal_strlit("yuv444p");
    reveal_strlit("yuv444p10le");
    reveal_strlit("yuv444p12le");
    reveal_with_fuel(crate::number::dec, 3);
    assert(crate::number::dec(10) =~= seq!['1', '0']);
    assert(crate::number::dec(12) =~= seq!['1', '2']);
    assert(crate::number::dec(16) =~= seq!['1', '6']);
    let (name, depth, sub) = known_formats()[k];
    let digits = match sub {
        PixelSubsampling::Yuv420 => "420p"@,
        PixelSubsampling::Yuv422 => "422p"@,
        PixelSubsampling::Yuv444 => "444p"@,
    };
    if k == 1 {
        assert(name =~= "yuvj"@ + digits);
    } else if depth == 8 {
        assert(name =~= "yuv"@ + digits);
    } else {
        assert(name =~= "yuv"@ + digits + crate::number::dec(depth as nat) + "le"@);
    }
}

/// The depth that is asked for is the one that frames get, whatever the source has; where
/// none is, a source of more than ten bits is brought to ten and any other is left alone.
pub proof fn the_depth_asked_for_is_wanted(format: PixelFormat, opts: OpenOpts)
    ensures
        opts.target_bit_depth is Some ==> wanted_depth(format, opts) == opts.target_bit_depth,
        opts.target_bit_depth is None && format.bit_depth > 10 ==> wanted_depth(format, opts)
            == Some(10u8),
        opts.target_bit_depth is None && format.bit_depth <= 10 ==> wanted_depth(
            format,
            opts,
        ) is None,
{
}

/// A conversion changes the depth and the decoder's number, and not how the chroma planes
/// are sampled.
pub proof fn conversions_keep_the_sampling(format: PixelFormat, pix_fmt: i32, depth: u8)
    ensures
        converted(format, pix_fmt, depth).subsampling == format.subsampling,
        converted(format, pix_fmt, depth).bit_depth == depth,
        converted(format, pix_fmt, depth).pix_fmt == pix_fmt,
{
}

/// A format that the decoder numbers like none of the recognized ones is taken for 4:2:0
/// with eight bits, under the number of the first of them.
pub proof fn other_formats_are_taken_for_the_first(pix_fmt: i32, ids: Seq<i32>, i: int)
    requires
        0 <= i <= FORMAT_COUNT,
        ids.len() == FORMAT_COUNT,
        forall|k: int| 0 <= k < ids.len() ==> #[trigger] ids[k] != pix_fmt,
    ensures
        format_from(pix_fmt, ids, i).pix_fmt == ids[0],
        format_from(pix_fmt, ids, i).bit_depth == 8,
        format_from(pix_fmt, ids, i).subsampling == PixelSubsampling::Yuv420,
    decreases FORMAT_COUNT - i,
{
    if i < FORMAT_COUNT {
        assert(ids[i] != pix_fmt);
        other_formats_are_taken_for_the_first(pix_fmt, ids, i + 1);
    }
}

/// A rectangle reads the same with and without the name of the filter before it, and is
/// no rectangle with fewer or more than four numbers.
pub proof fn rectangles_are_four_numbers(c: Crop, s: Seq<char>)
    ensures
        crop_of(filter_of(c).skip(5)) == Some(c),
        !has_prefix(s, "crop="@) && split_on(s, ':').len() != 4 ==> crop_of(s) is None,
{
    reveal_strlit("crop=");
    filter_reads_back(c);
    let f = filter_of(c);
    let p = "crop="@;
    assert(p.len() == 5);
    assert(f.take(5) =~= p);
    assert(has_prefix(f, p));
    let rest = f.skip(5);
    assert(without_prefixes(f, p) == without_prefixes(rest, p));
}

/// A rectangle keeps its even part, and only where that is not empty and inside the
/// source.
pub proof fn rectangles_are_rounded_inward(c: Crop, w: u32, h: u32, r: Option<Crop>)
    requires
        call_ensures(Crop::normalized, (c, w, h), r),
    ensures
        r matches Some(e) ==> {
            &&& e.w % 2 == 0 && e.h % 2 == 0 && e.x % 2 == 0 && e.y % 2 == 0
            &&& c.w - 1 <= e.w <= c.w && c.h - 1 <= e.h <= c.h && c.x - 1 <= e.x <= c.x && c.y - 1
                <= e.y <= c.y
            &&& 0 < e.w && 0 < e.h && e.x + e.w <= w && e.y + e.h <= h
        },
        c.w >= 2 && c.h >= 2 && c.x + c.w <= w && c.y + c.h <= h ==> r is Some,
{
}

/// Frames are converted exactly when the depth that is wanted is not their own, to the
/// format of that depth with the same chroma planes, and refused where there is none.
pub proof fn frames_are_converted_to_the_wanted_depth(
    format: PixelFormat,
    opts: OpenOpts,
    r: Result<Option<(u8, &'static str)>, NoFormat>,
)
    requires
        call_ensures(depth_conversion, (format, opts), r),
        opts.target_bit_depth matches Some(d) && (d == 8 || d == 10),
    ensures
        r is Ok,
        format.bit_depth == opts.target_bit_depth.unwrap() <==> r.unwrap() is None,
        r.unwrap() matches Some((d, name)) ==> d == opts.target_bit_depth.unwrap() && format_name(
            format.subsampling,
            d as nat,
        ) == Some(name@),
{
}

} // verus!
