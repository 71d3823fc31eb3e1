//! The measurement of a chunk's quality: the GPU it runs on, the display it
//! assumes, its command line and what it prints.
use vstd::prelude::*;

use crate::ffms2::Crop;
use crate::ieee::Real;
use crate::number::{
    dec, dec_u64, is_digit, lemma_dec_digits, parse_nat, parse_of_dec, parse_u32,
};
use crate::text::{
    contains, fold_case, folded, from_chars, has_prefix, has_substring, is_space, lines, lines_of,
    plus, push_str, push_string, sets, split_first, split_once, starts_with, str_eq,
    texts_split_at_the_first_separator, to_chars, trim, trim_start, trimmed, trimmed_texts_stay,
    views,
};

verus! {

/// The display that a score is measured for. HDR takes the display of the
/// transfer that is encoded, everything else one by the height of the picture.
pub open spec fn display_model(output_height: nat, hdr: bool, hlg: bool) -> Seq<char> {
    if hdr && hlg {
        "standard_hdr_hlg"@
    } else if hdr {
        "standard_hdr_pq"@
    } else if output_height >= 1440 {
        "standard_4k"@
    } else {
        "standard_fhd"@
    }
}

pub fn display_model_for(output_height: u32, hdr: bool, hlg: bool) -> (r: &'static str)
    ensures
        r@ == display_model(output_height as nat, hdr, hlg),
{
    if hdr && hlg {
        "standard_hdr_hlg"
    } else if hdr {
        "standard_hdr_pq"
    } else if output_height >= 1440 {
        "standard_4k"
    } else {
        "standard_fhd"
    }
}

/// Somewhere among the arguments the transfer is set to that of HLG.
pub open spec fn selects_hlg(args: Seq<Seq<char>>) -> bool {
    exists|i: int|
        0 <= i && i + 1 < args.len() && #[trigger] args[i] == "--transfer-characteristics"@
            && args[i + 1] == "18"@
}

/// True when the arguments found for an HDR source select HLG; otherwise the
/// source is taken for PQ.
pub fn hdr_args_are_hlg(hdr_args: &[String]) -> (r: bool)
    ensures
        r == selects_hlg(views(hdr_args@)),
{
    let ghost args = views(hdr_args@);
    let end: usize = hdr_args.len();
    let mut i: usize = 0;
    while i < end && i + 1 < end
        invariant
            i <= end,
            end == hdr_args@.len(),
            args == views(hdr_args@),
            forall|k: int|
                0 <= k < i && k + 1 < args.len() ==> !(#[trigger] args[k]
                    == "--transfer-characteristics"@ && args[k + 1] == "18"@),
        decreases end - i,
    {
        assert(args[i as int] == hdr_args@[i as int]@ && args[i + 1] == hdr_args@[i + 1]@);
        if str_eq(hdr_args[i].as_str(), "--transfer-characteristics") && str_eq(
            hdr_args[i + 1].as_str(),
            "18",
        ) {
            return true;
        }
        i += 1;
    }
    false
}

/// A device that the measurement could run on.
#[derive(Debug)]
pub struct GpuSelection {
    pub id: u32,
    pub label: String,
    /// False for a device that is emulated in software.
    pub hardware: bool,
}

impl GpuSelection {
    pub fn describe(&self) -> (r: String)
        ensures
            r@ == "gpu "@ + dec(self.id as nat) + " "@ + self.label@,
    {
        let r = plus("gpu ".to_owned(), dec_u64(self.id as u64).as_str());
        plus(plus(r, " "), self.label.as_str())
    }
}

/// The mathematical counterpart of [`GpuSelection`].
pub struct Gpu {
    pub id: nat,
    pub label: Seq<char>,
    pub hardware: bool,
}

impl View for GpuSelection {
    type V = Gpu;

    open spec fn view(&self) -> Gpu {
        Gpu { id: self.id as nat, label: self.label@, hardware: self.hardware }
    }
}

/// The name of a device does not say that it is emulated in software.
pub open spec fn is_hardware(label: Seq<char>) -> bool {
    let low = folded(label);
    &&& !has_substring(low, "llvmpipe"@)
    &&& !has_substring(low, "software"@)
    &&& !has_substring(low, "swrast"@)
}

/// The device that a line of the form `GPU <id>: <name>` lists.
pub open spec fn gpu_of(line: Seq<char>) -> Option<Gpu> {
    let t = trimmed(line);
    if !has_prefix(t, "GPU "@) {
        None
    } else {
        match split_first(t.skip(4), ':') {
            None => None,
            Some((id, name)) => match parse_nat(trimmed(id), u32::MAX as nat) {
                None => None,
                Some(id) => Some(
                    Gpu { id, label: trimmed(name), hardware: is_hardware(trimmed(name)) },
                ),
            },
        }
    }
}

/// The devices that a list of lines names.
pub open spec fn gpus_of(lines: Seq<Seq<char>>) -> Seq<Gpu>
    decreases lines.len(),
{
    if lines.len() == 0 {
        Seq::empty()
    } else {
        match gpu_of(lines.last()) {
            Some(g) => gpus_of(lines.drop_last()).push(g),
            None => gpus_of(lines.drop_last()),
        }
    }
}

/// The position of the first hardware device, or the number of devices.
pub open spec fn first_hardware(gpus: Seq<Gpu>) -> int
    decreases gpus.len(),
{
    if gpus.len() == 0 || gpus[0].hardware {
        0
    } else {
        1 + first_hardware(gpus.skip(1))
    }
}

/// The device to run on: the first hardware device, or else the first of all.
pub open spec fn chosen_gpu(gpus: Seq<Gpu>) -> Option<Gpu> {
    let i = first_hardware(gpus);
    if i < gpus.len() {
        Some(gpus[i])
    } else if gpus.len() > 0 {
        Some(gpus[0])
    } else {
        None
    }
}

fn parse_gpu(line: &str) -> (r: Option<GpuSelection>)
    ensures
        match r {
            Some(g) => gpu_of(line@) == Some(g@),
            None => gpu_of(line@) is None,
        },
{
    let t = trim(line);
    if !starts_with(t.as_str(), "GPU ") {
        return None;
    }
    proof {
        reveal_strlit("GPU ");
    }
    let chars = to_chars(t.as_str());
    let rest = from_chars(&chars, 4, chars.len());
    assert(rest@ =~= t@.skip(4));
    match split_once(rest.as_str(), ':') {
        None => None,
        Some((id, name)) => match parse_u32(trim(id.as_str()).as_str()) {
            None => None,
            Some(id) => {
                let label = trim(name.as_str());
                let low = fold_case(label.as_str());
                let hardware = !contains(low.as_str(), "llvmpipe") && !contains(
                    low.as_str(),
                    "software",
                ) && !contains(low.as_str(), "swrast");
                Some(GpuSelection { id, label, hardware })
            },
        },
    }
}

proof fn lemma_first_hardware(gpus: Seq<Gpu>, n: int)
    requires
        0 <= n <= gpus.len(),
        forall|i: int| 0 <= i < n ==> !(#[trigger] gpus[i]).hardware,
        n < gpus.len() ==> gpus[n].hardware,
    ensures
        first_hardware(gpus) == n,
    decreases gpus.len(),
{
    if n > 0 {
        let t = gpus.skip(1);
        assert(!gpus[0].hardware);
        assert forall|i: int| 0 <= i < n - 1 implies !(#[trigger] t[i]).hardware by {
            assert(t[i] == gpus[i + 1]);
        }
        lemma_first_hardware(t, n - 1);
    }
}

/// The device to run on, from the list that the tool prints. A software device
/// is returned only where there is no other, so that callers can tell.
pub fn select_gpu(list: &str) -> (r: Option<GpuSelection>)
    ensures
        match r {
            Some(g) => chosen_gpu(gpus_of(lines_of(list@))) == Some(g@),
            None => chosen_gpu(gpus_of(lines_of(list@))) is None,
        },
{
    let all = lines(list);
    let ghost ls = lines_of(list@);
    let mut first: Option<GpuSelection> = None;
    let mut i: usize = 0;
    let ghost mut seen: Seq<Gpu> = Seq::empty();
    while i < all.len()
        invariant
            i <= all@.len(),
            ls == views(all@),
            ls == lines_of(list@),
            seen == gpus_of(ls.take(i as int)),
            forall|k: int| 0 <= k < seen.len() ==> !(#[trigger] seen[k]).hardware,
            match first {
                Some(g) => seen.len() > 0 && seen[0] == g@,
                None => seen.len() == 0,
            },
        decreases all@.len() - i,
    {
        assert(ls.take(i + 1).drop_last() =~= ls.take(i as int));
        assert(ls.take(i + 1).last() == all@[i as int]@);
        let found = parse_gpu(all[i].as_str());
        i += 1;
        if let Some(g) = found {
            let ghost now = seen.push(g@);
            assert(gpus_of(ls.take(i as int)) == now);
            if g.hardware {
                proof {
                    lemma_first_hardware(now, seen.len() as int);
                    lemma_gpus_extend(ls, i as int);
                    lemma_first_hardware(gpus_of(ls), seen.len() as int);
                }
                return Some(g);
            }
            proof {
                seen = now;
            }
            if first.is_none() {
                first = Some(g);
            }
        }
    }
    assert(ls.take(i as int) =~= ls);
    proof {
        lemma_first_hardware(seen, seen.len() as int);
    }
    first
}

/// The devices of the first lines come first.
proof fn lemma_gpus_extend(lines: Seq<Seq<char>>, n: int)
    requires
        0 <= n <= lines.len(),
    ensures
        gpus_of(lines.take(n)).len() <= gpus_of(lines).len(),
        forall|i: int|
            0 <= i < gpus_of(lines.take(n)).len() ==> gpus_of(lines.take(n))[i] == gpus_of(
                lines,
            )[i],
    decreases lines.len(),
{
    if n == lines.len() {
        assert(lines.take(n) =~= lines);
    } else {
        lemma_gpus_extend(lines.drop_last(), n);
        assert(lines.drop_last().take(n) =~= lines.take(n));
    }
}

/// A software device is chosen only where every device is one.
pub proof fn hardware_is_preferred(gpus: Seq<Gpu>)
    ensures
        match chosen_gpu(gpus) {
            Some(g) => gpus.contains(g) && (!g.hardware ==> forall|i: int|
                0 <= i < gpus.len() ==> !(#[trigger] gpus[i]).hardware),
            None => gpus.len() == 0,
        },
    decreases gpus.len(),
{
    if gpus.len() > 0 && !gpus[0].hardware {
        let t = gpus.skip(1);
        hardware_is_preferred(t);
        assert forall|i: int| 0 <= i < gpus.len() && first_hardware(gpus) >= gpus.len() implies !(
        #[trigger] gpus[i]).hardware by {
            if i > 0 {
                assert(t[i - 1] == gpus[i]);
                assert(first_hardware(t) >= t.len());
            }
        }
        lemma_first_in_range(gpus);
        if first_hardware(gpus) < gpus.len() {
            assert(gpus[first_hardware(gpus)].hardware);
        } else {
            assert(gpus[0] == chosen_gpu(gpus).unwrap());
        }
    } else if gpus.len() > 0 {
        assert(gpus[0] == chosen_gpu(gpus).unwrap());
    }
}

proof fn lemma_first_in_range(gpus: Seq<Gpu>)
    ensures
        0 <= first_hardware(gpus) <= gpus.len(),
        first_hardware(gpus) < gpus.len() ==> gpus[first_hardware(gpus)].hardware,
        first_hardware(gpus) >= gpus.len() ==> forall|i: int|
            0 <= i < gpus.len() ==> !(#[trigger] gpus[i]).hardware,
    decreases gpus.len(),
{
    if gpus.len() > 0 && !gpus[0].hardware {
        let t = gpus.skip(1);
        lemma_first_in_range(t);
        if first_hardware(gpus) < gpus.len() {
            assert(t[first_hardware(t)] == gpus[first_hardware(gpus)]);
        } else {
            assert forall|i: int| 0 <= i < gpus.len() implies !(#[trigger] gpus[i]).hardware by {
                if i > 0 {
                    assert(t[i - 1] == gpus[i]);
                }
            }
        }
    }
}

/// Why there is no device to run on.
#[derive(Debug)]
pub enum GpuError {
    /// The tool could not start Vulkan; this is what it said.
    NoVulkan(String),
    /// The only device is emulated in software; this is its name.
    SoftwareOnly(String),
    /// There is no device.
    NoDevice,
}

impl GpuError {
    pub open spec fn text(self) -> Seq<char> {
        match self {
            GpuError::NoVulkan(stderr) =>
                "target_quality requires a GPU, but FFVship could not initialize Vulkan:\n"@
                    + trimmed(stderr@) + "\n"@ + gpu_advice() + "."@,
            GpuError::SoftwareOnly(label) =>
                "target_quality requires a GPU, but FFVship found only a software Vulkan device ("@
                    + label@ + "). "@ + gpu_advice() + ", or remove [target_quality]."@,
            GpuError::NoDevice =>
                "target_quality requires a GPU, but FFVship found no Vulkan device. "@
                    + gpu_advice() + "."@,
        }
    }

    pub fn message(&self) -> (r: String)
        ensures
            r@ == self.text(),
    {
        let advice =
            "Provide a GPU (Intel/AMD: pass the render device /dev/dri; NVIDIA: nvidia-container-toolkit)";
        match self {
            GpuError::NoVulkan(stderr) => {
                let r =
                    "target_quality requires a GPU, but FFVship could not initialize Vulkan:\n".to_owned();
                plus(plus(plus(plus(r, trim(stderr.as_str()).as_str()), "\n"), advice), ".")
            },
            GpuError::SoftwareOnly(label) => {
                let r =
                    "target_quality requires a GPU, but FFVship found only a software Vulkan device (".to_owned();
                plus(
                    plus(plus(plus(r, label.as_str()), "). "), advice),
                    ", or remove [target_quality].",
                )
            },
            GpuError::NoDevice => {
                let r =
                    "target_quality requires a GPU, but FFVship found no Vulkan device. ".to_owned();
                plus(plus(r, advice), ".")
            },
        }
    }
}

/// How to make a device available.
pub open spec fn gpu_advice() -> Seq<char> {
    "Provide a GPU (Intel/AMD: pass the render device /dev/dri; NVIDIA: nvidia-container-toolkit)"@
}

/// The hardware device to run on, from what the tool printed and whether it
/// ended well. Without one the measurement would be too slow to be of use.
pub fn require_gpu(success: bool, stdout: &str, stderr: &str) -> (r: Result<
    GpuSelection,
    GpuError,
>)
    ensures
        !success ==> (r matches Err(GpuError::NoVulkan(said)) && said@ == stderr@),
        success ==> match chosen_gpu(gpus_of(lines_of(stdout@))) {
            Some(g) => if g.hardware {
                r matches Ok(found) && found@ == g
            } else {
                r matches Err(GpuError::SoftwareOnly(label)) && label@ == g.label
            },
            None => r matches Err(GpuError::NoDevice),
        },
{
    if !success {
        return Err(GpuError::NoVulkan(stderr.to_owned()));
    }
    match select_gpu(stdout) {
        Some(g) => if g.hardware {
            Ok(g)
        } else {
            Err(GpuError::SoftwareOnly(g.label))
        },
        None => Err(GpuError::NoDevice),
    }
}

/// A measurement of an encoded chunk against its source.
pub struct MeasureOpts<'a> {
    pub distorted: &'a str,
    pub source: &'a str,
    /// The index of the source's frames.
    pub index: &'a str,
    /// The first frame of the chunk in the source.
    pub start: u64,
    pub crop: Option<Crop>,
    pub source_width: u32,
    pub source_height: u32,
    pub display_model: &'a str,
    pub gpu_id: u32,
    pub n_threads: usize,
    /// The file for the scores.
    pub json: &'a str,
}

/// The pixels between a position and the end of an edge; none if it lies beyond.
pub open spec fn remaining(size: u32, start: u32, len: u32) -> nat {
    if size >= start + len {
        (size - start - len) as nat
    } else {
        0
    }
}

/// The arguments that cut a rectangle out of the source, edge by edge.
pub open spec fn crop_args(crop: Option<Crop>, width: u32, height: u32) -> Seq<Seq<char>> {
    match crop {
        None => Seq::empty(),
        Some(c) => seq![
            "--cropLeftSource"@,
            dec(c.x as nat),
            "--cropTopSource"@,
            dec(c.y as nat),
            "--cropRightSource"@,
            dec(remaining(width, c.x, c.w)),
            "--cropBottomSource"@,
            dec(remaining(height, c.y, c.h)),
        ],
    }
}

/// The arguments of a measurement: both files over the same frames, the source
/// cut to the part that was encoded.
pub open spec fn measure_args_for(m: MeasureOpts) -> Seq<Seq<char>> {
    seq![
        "-s"@,
        m.source@,
        "-e"@,
        m.distorted@,
        "-m"@,
        "CVVDP"@,
        "--source-index"@,
        m.index@,
        "--start"@,
        dec(m.start as nat),
        "--encoded-offset"@,
        "-"@ + dec(m.start as nat),
        "--displayModel"@,
        m.display_model@,
        "--gpu-id"@,
        dec(m.gpu_id as nat),
        "-t"@,
        dec(m.n_threads as nat),
        "-g"@,
        "3"@,
        "--json"@,
        m.json@,
    ] + crop_args(m.crop, m.source_width, m.source_height)
}

fn edge_rest(size: u32, start: u32, len: u32) -> (r: u64)
    ensures
        r == remaining(size, start, len),
{
    let used: u64 = start as u64 + len as u64;
    if size as u64 >= used {
        size as u64 - used
    } else {
        0
    }
}

pub fn measure_args(m: &MeasureOpts<'_>) -> (r: Vec<String>)
    ensures
        views(r@) == measure_args_for(*m),
{
    let mut args: Vec<String> = Vec::new();
    push_str(&mut args, "-s");
    push_str(&mut args, m.source);
    push_str(&mut args, "-e");
    push_str(&mut args, m.distorted);
    push_str(&mut args, "-m");
    push_str(&mut args, "CVVDP");
    push_str(&mut args, "--source-index");
    push_str(&mut args, m.index);
    push_str(&mut args, "--start");
    push_string(&mut args, dec_u64(m.start));
    push_str(&mut args, "--encoded-offset");
    push_string(&mut args, plus("-".to_owned(), dec_u64(m.start).as_str()));
    push_str(&mut args, "--displayModel");
    push_str(&mut args, m.display_model);
    push_str(&mut args, "--gpu-id");
    push_string(&mut args, dec_u64(m.gpu_id as u64));
    push_str(&mut args, "-t");
    push_string(&mut args, dec_u64(m.n_threads as u64));
    push_str(&mut args, "-g");
    push_str(&mut args, "3");
    push_str(&mut args, "--json");
    push_str(&mut args, m.json);
    if let Some(c) = m.crop {
        push_str(&mut args, "--cropLeftSource");
        push_string(&mut args, dec_u64(c.x as u64));
        push_str(&mut args, "--cropTopSource");
        push_string(&mut args, dec_u64(c.y as u64));
        push_str(&mut args, "--cropRightSource");
        push_string(&mut args, dec_u64(edge_rest(m.source_width, c.x, c.w)));
        push_str(&mut args, "--cropBottomSource");
        push_string(&mut args, dec_u64(edge_rest(m.source_height, c.y, c.h)));
    }
    assert(views(args@) =~= measure_args_for(*m));
    args
}

/// What a measurement compares is what was encoded: with a rectangle inside the
/// source, the edges that are cut away leave exactly its width and height.
pub proof fn measured_part_is_the_encoded_part(c: Crop, width: u32, height: u32)
    requires
        c.inside(width, height),
    ensures
        c.x + c.w + remaining(width, c.x, c.w) == width,
        c.y + c.h + remaining(height, c.y, c.h) == height,
{
}

/// The error of the JSON parser.
#[verifier::external_type_specification]
#[verifier::external_body]
pub struct ExJsonError(serde_json::Error);

/// What `serde_json::from_str` reads from a text as an array of arrays of
/// numbers: their patterns, or nothing where the text is no such array.
pub uninterp spec fn json_number_rows(raw: Seq<char>) -> Option<Seq<Seq<u64>>>;

/// The contents of a list of lists.
pub open spec fn rows_view(rows: Seq<Vec<u64>>) -> Seq<Seq<u64>> {
    Seq::new(rows.len(), |i: int| rows[i]@)
}

/// Calls `serde_json::from_str` for an array of arrays of numbers and takes
/// each number by its floating-point pattern. It is claimed that what comes
/// back depends on the text alone, and that every number is finite: JSON has no
/// others.
#[verifier::external_body]
fn parse_number_rows(raw: &str) -> (r: Result<Vec<Vec<u64>>, serde_json::Error>)
    ensures
        match r {
            Ok(rows) => json_number_rows(raw@) == Some(rows_view(rows@)) && forall|i: int, j: int|
                0 <= i < rows@.len() && 0 <= j < rows@[i]@.len() ==> (Real {
                    bits: #[trigger] rows@[i]@[j],
                }).finite(),
            Err(_) => json_number_rows(raw@) is None,
        },
{
    let rows: Vec<Vec<serde_json::Number>> = serde_json::from_str(raw)?;
    let bits = |n: &serde_json::Number| n.as_f64().unwrap_or_default().to_bits();
    Ok(rows.iter().map(|row| row.iter().map(bits).collect()).collect())
}

/// The last number of the last row.
pub open spec fn last_number(rows: Seq<Seq<u64>>) -> Option<u64> {
    if rows.len() == 0 || rows.last().len() == 0 {
        None
    } else {
        Some(rows.last().last())
    }
}

/// The score of a whole clip: each row holds the scores up to a frame, so it is
/// the last number of the last row.
pub fn last_score(rows: &[Vec<u64>]) -> (r: Option<Real>)
    ensures
        match last_number(rows_view(rows@)) {
            Some(bits) => r == Some(Real { bits }),
            None => r is None,
        },
{
    if rows.len() == 0 {
        return None;
    }
    let row = &rows[rows.len() - 1];
    if row.len() == 0 {
        return None;
    }
    Some(Real { bits: row[row.len() - 1] })
}

/// Why a measurement gave no score.
#[derive(Debug)]
pub enum CvvdpError {
    /// What the tool wrote is not JSON of the expected form.
    Json(serde_json::Error),
    /// It holds no score.
    NoScores,
}

impl CvvdpError {
    pub fn message(&self) -> (r: String)
        ensures
            r@ == (match *self {
                CvvdpError::Json(_) => "parse FFVship CVVDP json"@,
                CvvdpError::NoScores => "FFVship CVVDP json had no scores"@,
            }),
    {
        match self {
            CvvdpError::Json(_) => "parse FFVship CVVDP json".to_owned(),
            CvvdpError::NoScores => "FFVship CVVDP json had no scores".to_owned(),
        }
    }
}

/// The score in what the tool wrote.
pub fn parse_cvvdp(raw: &str) -> (r: Result<Real, CvvdpError>)
    ensures
        match json_number_rows(raw@) {
            None => r matches Err(CvvdpError::Json(_)),
            Some(rows) => match last_number(rows) {
                Some(bits) => r matches Ok(score) && score == (Real { bits }) && score.finite(),
                None => r matches Err(CvvdpError::NoScores),
            },
        },
{
    match parse_number_rows(raw) {
        Err(e) => Err(CvvdpError::Json(e)),
        Ok(rows) => {
            proof {
                if rows@.len() > 0 && rows@.last()@.len() > 0 {
                    let i = rows@.len() - 1;
                    let j = rows@[i]@.len() - 1;
                    assert((Real { bits: rows@[i]@[j] }).finite());
                }
            }
            match last_score(rows.as_slice()) {
                Some(score) => Ok(score),
                None => Err(CvvdpError::NoScores),
            }
        },
    }
}

/// HDR is measured for an HDR display of its own transfer, and anything else for a
/// display by its height: from 1440 lines on, for one of 4K.
pub proof fn displays_fit_the_picture(height: nat, hdr: bool, hlg: bool)
    ensures
        display_model(height, hdr, hlg) == "standard_hdr_hlg"@ <==> hdr && hlg,
        display_model(height, hdr, hlg) == "standard_hdr_pq"@ <==> hdr && !hlg,
        display_model(height, hdr, hlg) == "standard_4k"@ <==> !hdr && height >= 1440,
        display_model(height, hdr, hlg) == "standard_fhd"@ <==> !hdr && height < 1440,
{
    reveal_strlit("standard_hdr_hlg");
    reveal_strlit("standard_hdr_pq");
    reveal_strlit("standard_4k");
    reveal_strlit("standard_fhd");
    assert("standard_hdr_hlg"@.len() == 16 && "standard_hdr_pq"@.len() == 15);
    assert("standard_4k"@.len() == 11 && "standard_fhd"@.len() == 12);
}

/// A source is HLG exactly when its transfer is set to the code of HLG.
pub proof fn hlg_is_told_by_its_transfer(args: Seq<Seq<char>>)
    ensures
        selects_hlg(args) <==> sets(args, "--transfer-characteristics"@, "18"@),
{
}

/// A line that lists a device is read as it is written: its number, its name, and that
/// it is hardware unless its name says otherwise.
pub proof fn devices_are_read_as_listed(id: u32, name: Seq<char>)
    requires
        name.len() > 0,
        !is_space(name[0]),
        !is_space(name.last()),
    ensures
        ({
            let line = "GPU "@ + (dec(id as nat) + seq![':'] + (seq![' '] + name));
            &&& gpu_of(line) is Some
            &&& gpu_of(line).unwrap().id == id
            &&& gpu_of(line).unwrap().label == name
            &&& gpu_of(line).unwrap().hardware <==> !has_substring(folded(name), "llvmpipe"@)
                && !has_substring(folded(name), "software"@) && !has_substring(
                folded(name),
                "swrast"@,
            )
        }),
{
    reveal_strlit("GPU ");
    let number = dec(id as nat);
    let rest = number + seq![':'] + (seq![' '] + name);
    let line = "GPU "@ + rest;
    lemma_dec_digits(id as nat);
    parse_of_dec(id as nat, u32::MAX as nat);
    assert(line[0] == 'G');
    assert(line.last() == name.last());
    trimmed_texts_stay(line);
    assert(line.take(4) =~= "GPU "@);
    assert(line.skip(4) =~= rest);
    assert forall|i: int| 0 <= i < number.len() implies number[i] != ':' by {
        assert(is_digit(number[i]));
    }
    texts_split_at_the_first_separator(number, ':', seq![' '] + name);
    assert(is_digit(number[0]) && is_digit(number[number.len() - 1]));
    trimmed_texts_stay(number);
    let spaced = seq![' '] + name;
    assert(spaced.skip(1) =~= name);
    assert(trim_start(name) == name);
    assert(trim_start(spaced) == trim_start(name));
    trimmed_texts_stay(name);
}

/// The devices keep the order of the list, and a line that lists none adds none.
pub proof fn devices_keep_their_order(lines: Seq<Seq<char>>, line: Seq<char>)
    ensures
        gpu_of(line) matches Some(g) ==> gpus_of(lines.push(line)) == gpus_of(lines).push(g),
        gpu_of(line) is None ==> gpus_of(lines.push(line)) == gpus_of(lines),
        gpus_of(Seq::empty()).len() == 0,
{
    assert(lines.push(line).drop_last() =~= lines);
}

/// The first hardware device is chosen; where there is none, the first of all.
pub proof fn the_first_hardware_device_is_chosen(gpus: Seq<Gpu>, n: int)
    requires
        0 <= n <= gpus.len(),
        forall|i: int| 0 <= i < n ==> !(#[trigger] gpus[i]).hardware,
        n < gpus.len() ==> gpus[n].hardware,
    ensures
        n < gpus.len() ==> chosen_gpu(gpus) == Some(gpus[n]),
        n == gpus.len() && n > 0 ==> chosen_gpu(gpus) == Some(gpus[0]),
{
    lemma_first_hardware(gpus, n);
}

/// A measurement compares the encoded chunk with the frames of the source from the start
/// of the chunk on, on the given device and for the given display, and its scores are
/// written where they are looked for.
pub proof fn chunks_are_measured_against_their_source(m: MeasureOpts)
    ensures
        ({
            let args = measure_args_for(m);
            &&& sets(args, "-s"@, m.source@)
            &&& sets(args, "-e"@, m.distorted@)
            &&& sets(args, "-m"@, "CVVDP"@)
            &&& sets(args, "--source-index"@, m.index@)
            &&& sets(args, "--start"@, dec(m.start as nat))
            &&& sets(args, "--encoded-offset"@, "-"@ + dec(m.start as nat))
            &&& sets(args, "--displayModel"@, m.display_model@)
            &&& sets(args, "--gpu-id"@, dec(m.gpu_id as nat))
            &&& sets(args, "-t"@, dec(m.n_threads as nat))
            &&& sets(args, "-g"@, "3"@)
            &&& sets(args, "--json"@, m.json@)
            &&& m.crop is None ==> args.len() == 22
        }),
{
    let args = measure_args_for(m);
    assert(args[0] == "-s"@ && args[0int + 1] == m.source@);
    assert(args[2] == "-e"@ && args[2int + 1] == m.distorted@);
    assert(args[4] == "-m"@ && args[4int + 1] == "CVVDP"@);
    assert(args[6] == "--source-index"@ && args[6int + 1] == m.index@);
    assert(args[8] == "--start"@ && args[8int + 1] == dec(m.start as nat));
    assert(args[10] == "--encoded-offset"@ && args[10int + 1] == "-"@ + dec(m.start as nat));
    assert(args[12] == "--displayModel"@ && args[12int + 1] == m.display_model@);
    assert(args[14] == "--gpu-id"@ && args[14int + 1] == dec(m.gpu_id as nat));
    assert(args[16] == "-t"@ && args[16int + 1] == dec(m.n_threads as nat));
    assert(args[18] == "-g"@ && args[18int + 1] == "3"@);
    assert(args[20] == "--json"@ && args[20int + 1] == m.json@);
}

/// Where a part of the picture was encoded, the source is cut on each side by what lies
/// outside of that part.
pub proof fn the_source_is_cut_on_every_side(m: MeasureOpts, c: Crop)
    requires
        m.crop == Some(c),
        c.x + c.w <= m.source_width,
        c.y + c.h <= m.source_height,
    ensures
        ({
            let args = measure_args_for(m);
            &&& sets(args, "--cropLeftSource"@, dec(c.x as nat))
            &&& sets(args, "--cropTopSource"@, dec(c.y as nat))
            &&& sets(args, "--cropRightSource"@, dec((m.source_width - c.x - c.w) as nat))
            &&& sets(args, "--cropBottomSource"@, dec((m.source_height - c.y - c.h) as nat))
        }),
{
    let args = measure_args_for(m);
    assert(args[22] == "--cropLeftSource"@ && args[22int + 1] == dec(c.x as nat));
    assert(args[24] == "--cropTopSource"@ && args[24int + 1] == dec(c.y as nat));
    assert(args[26] == "--cropRightSource"@ && args[26int + 1] == dec(
        (m.source_width - c.x - c.w) as nat,
    ));
    assert(args[28] == "--cropBottomSource"@ && args[28int + 1] == dec(
        (m.source_height - c.y - c.h) as nat,
    ));
}

/// The score of a clip is the last number of the last row, whatever stands before it;
/// without rows, or with an empty last one, there is none.
pub proof fn the_last_number_is_the_score(rows: Seq<Seq<u64>>, row: Seq<u64>, score: u64)
    ensures
        last_number(rows.push(row.push(score))) == Some(score),
        last_number(rows.push(Seq::empty())) is None,
        last_number(Seq::empty()) is None,
{
}

/// Scores are measured on hardware only: there is a device exactly when the tool ended
/// well and listed one that is not emulated, and then it is the first of these.
pub proof fn scores_are_measured_on_hardware(
    success: bool,
    stdout: &str,
    stderr: &str,
    r: Result<GpuSelection, GpuError>,
    n: int,
)
    requires
        call_ensures(require_gpu, (success, stdout, stderr), r),
        0 <= n <= gpus_of(lines_of(stdout@)).len(),
        forall|i: int| 0 <= i < n ==> !(#[trigger] gpus_of(lines_of(stdout@))[i]).hardware,
        n < gpus_of(lines_of(stdout@)).len() ==> gpus_of(lines_of(stdout@))[n].hardware,
    ensures
        r is Ok <==> success && n < gpus_of(lines_of(stdout@)).len(),
        r matches Ok(g) ==> g@ == gpus_of(lines_of(stdout@))[n] && g.hardware,
        !success ==> (r matches Err(GpuError::NoVulkan(said)) && said@ == stderr@),
        success && gpus_of(lines_of(stdout@)).len() == 0 ==> (r matches Err(GpuError::NoDevice)),
        success && n == gpus_of(lines_of(stdout@)).len() && n > 0 ==> (r matches Err(
            GpuError::SoftwareOnly(label),
        ) && label@ == gpus_of(lines_of(stdout@))[0].label),
{
    the_first_hardware_device_is_chosen(gpus_of(lines_of(stdout@)), n);
}

/// A message about a missing device repeats what the tool said of it: what went wrong, or
/// the name of the only device there is.
pub proof fn messages_repeat_what_the_tool_said(said: String)
    ensures
        has_substring(GpuError::NoVulkan(said).text(), trimmed(said@)),
        has_substring(GpuError::SoftwareOnly(said).text(), said@),
{
    let a = "target_quality requires a GPU, but FFVship could not initialize Vulkan:\n"@;
    let t = trimmed(said@);
    let b = "\n"@ + gpu_advice() + "."@;
    assert(GpuError::NoVulkan(said).text() =~= a + t + b);
    crate::text::parts_are_found(a, t, b);
    let c = "target_quality requires a GPU, but FFVship found only a software Vulkan device ("@;
    let d = "). "@ + gpu_advice() + ", or remove [target_quality]."@;
    assert(GpuError::SoftwareOnly(said).text() =~= c + said@ + d);
    crate::text::parts_are_found(c, said@, d);
}

} // verus!
