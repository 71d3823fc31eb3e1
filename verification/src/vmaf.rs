//! The measurement of a chunk with VMAF: the model it takes and its command
//! lines.
use vstd::prelude::*;

use crate::ffms2::Crop;
use crate::number::{dec, dec_u64};
use crate::text::{plus, push_str, push_string, quiet, sets, sets_behind, views};

verus! {

/// The model for pictures below 1440 lines.
pub const MODEL_1080: &'static str = "vmaf_v1.0.16_3d0h";

/// The model for pictures of 1440 lines and more.
pub const MODEL_2160: &'static str = "vmaf_v1.0.16_1d5h_2160";

pub open spec fn model_of(output_height: nat) -> Seq<char> {
    if output_height >= 1440 {
        MODEL_2160@
    } else {
        MODEL_1080@
    }
}

/// The model for a picture of the given height.
pub fn model_for_height(output_height: u32) -> (r: &'static str)
    ensures
        r@ == model_of(output_height as nat),
{
    if output_height >= 1440 {
        MODEL_2160
    } else {
        MODEL_1080
    }
}

/// A measurement of an encoded chunk against the frames `start..=end` of its
/// source, cropped and scaled as they were for the encoder.
pub struct MeasureOpts<'a> {
    pub distorted: &'a str,
    pub source: &'a str,
    pub index: &'a str,
    pub start: u64,
    pub end: u64,
    pub crop: Option<Crop>,
    pub scale: Option<(u32, u32)>,
    pub target_bit_depth: Option<u8>,
    pub fps_num: u32,
    pub fps_den: u32,
    pub model: &'a str,
    pub n_threads: usize,
}

/// The filter that brings the frames of the source to the size and the depth of
/// the comparison.
pub open spec fn reference_filter(scale: Option<(u32, u32)>) -> Seq<char> {
    match scale {
        Some((w, h)) => "scale="@ + dec(w as nat) + ":"@ + dec(h as nat)
            + ":flags=lanczos,format=yuv420p10le"@,
        None => "format=yuv420p10le"@,
    }
}

/// The arguments with which ffmpeg writes the encoded frames to `output`.
pub open spec fn distorted_args_for(distorted: Seq<char>, output: Seq<char>) -> Seq<Seq<char>> {
    seq![
        "-hide_banner"@,
        "-loglevel"@,
        "error"@,
        "-y"@,
        "-i"@,
        distorted,
        "-vf"@,
        "format=yuv420p10le"@,
        "-strict"@,
        "-1"@,
        "-f"@,
        "yuv4mpegpipe"@,
        output,
    ]
}

/// The arguments with which ffmpeg writes the frames of the source, which come
/// by a pipe, to `output`.
pub open spec fn reference_args_for(
    scale: Option<(u32, u32)>,
    output: Seq<char>,
) -> Seq<Seq<char>> {
    seq![
        "-hide_banner"@,
        "-loglevel"@,
        "error"@,
        "-y"@,
        "-f"@,
        "yuv4mpegpipe"@,
        "-i"@,
        "pipe:0"@,
        "-vf"@,
        reference_filter(scale),
        "-strict"@,
        "-1"@,
        "-f"@,
        "yuv4mpegpipe"@,
        output,
    ]
}

/// The arguments of the tool itself, which writes its log to `json`.
pub open spec fn vmaf_args_for(
    reference: Seq<char>,
    distorted: Seq<char>,
    model: Seq<char>,
    json: Seq<char>,
    n_threads: nat,
) -> Seq<Seq<char>> {
    seq![
        "-r"@,
        reference,
        "-d"@,
        distorted,
        "-m"@,
        "version="@ + model,
        "--json"@,
        "-o"@,
        json,
        "--threads"@,
        dec(n_threads),
    ]
}

pub fn distorted_args(m: &MeasureOpts<'_>, output: &str) -> (r: Vec<String>)
    ensures
        views(r@) == distorted_args_for(m.distorted@, output@),
{
    let mut args: Vec<String> = Vec::new();
    push_str(&mut args, "-hide_banner");
    push_str(&mut args, "-loglevel");
    push_str(&mut args, "error");
    push_str(&mut args, "-y");
    push_str(&mut args, "-i");
    push_str(&mut args, m.distorted);
    push_str(&mut args, "-vf");
    push_str(&mut args, "format=yuv420p10le");
    push_str(&mut args, "-strict");
    push_str(&mut args, "-1");
    push_str(&mut args, "-f");
    push_str(&mut args, "yuv4mpegpipe");
    push_str(&mut args, output);
    args
}

pub fn reference_args(m: &MeasureOpts<'_>, output: &str) -> (r: Vec<String>)
    ensures
        views(r@) == reference_args_for(m.scale, output@),
{
    let filter = match m.scale {
        Some((w, h)) => {
            let r = plus("scale=".to_owned(), dec_u64(w as u64).as_str());
            let r = plus(plus(r, ":"), dec_u64(h as u64).as_str());
            plus(r, ":flags=lanczos,format=yuv420p10le")
        },
        None => "format=yuv420p10le".to_owned(),
    };
    let mut args: Vec<String> = Vec::new();
    push_str(&mut args, "-hide_banner");
    push_str(&mut args, "-loglevel");
    push_str(&mut args, "error");
    push_str(&mut args, "-y");
    push_str(&mut args, "-f");
    push_str(&mut args, "yuv4mpegpipe");
    push_str(&mut args, "-i");
    push_str(&mut args, "pipe:0");
    push_str(&mut args, "-vf");
    push_string(&mut args, filter);
    push_str(&mut args, "-strict");
    push_str(&mut args, "-1");
    push_str(&mut args, "-f");
    push_str(&mut args, "yuv4mpegpipe");
    push_str(&mut args, output);
    args
}

pub fn vmaf_args(m: &MeasureOpts<'_>, reference: &str, distorted: &str, json: &str) -> (r: Vec<
    String,
>)
    ensures
        views(r@) == vmaf_args_for(
            reference@,
            distorted@,
            m.model@,
            json@,
            m.n_threads as nat,
        ),
{
    let mut args: Vec<String> = Vec::new();
    push_str(&mut args, "-r");
    push_str(&mut args, reference);
    push_str(&mut args, "-d");
    push_str(&mut args, distorted);
    push_str(&mut args, "-m");
    push_string(&mut args, plus("version=".to_owned(), m.model));
    push_str(&mut args, "--json");
    push_str(&mut args, "-o");
    push_str(&mut args, json);
    push_str(&mut args, "--threads");
    push_string(&mut args, dec_u64(m.n_threads as u64));
    args
}

/// Pictures of 1440 lines and more have a model of their own.
pub proof fn models_fit_the_picture(height: nat)
    ensures
        height >= 1440 ==> model_of(height) == "vmaf_v1.0.16_1d5h_2160"@,
        height < 1440 ==> model_of(height) == "vmaf_v1.0.16_3d0h"@,
{
}

/// Both sides of a comparison come in one format: the encoded frames as they are, the
/// frames of the source from a pipe and, where they were scaled for the encoder, scaled
/// the same way before.
pub proof fn both_sides_come_in_one_format(
    distorted: Seq<char>,
    output: Seq<char>,
    w: u32,
    h: u32,
)
    ensures
        ({
            let encoded = distorted_args_for(distorted, output);
            &&& sets(encoded, "-i"@, distorted)
            &&& sets(encoded, "-vf"@, "format=yuv420p10le"@)
            &&& sets_behind(encoded, 5, "-f"@, "yuv4mpegpipe"@)
            &&& encoded.last() == output
        }),
        ({
            let plain = reference_args_for(None, output);
            &&& sets(plain, "-f"@, "yuv4mpegpipe"@)
            &&& sets(plain, "-i"@, "pipe:0"@)
            &&& sets(plain, "-vf"@, "format=yuv420p10le"@)
            &&& sets_behind(plain, 7, "-f"@, "yuv4mpegpipe"@)
            &&& plain.last() == output
        }),
        ({
            let scaled = reference_args_for(Some((w, h)), output);
            &&& sets(scaled, "-f"@, "yuv4mpegpipe"@)
            &&& sets(scaled, "-i"@, "pipe:0"@)
            &&& sets(
                scaled,
                "-vf"@,
                "scale="@ + dec(w as nat) + ":"@ + dec(h as nat)
                    + ":flags=lanczos,format=yuv420p10le"@,
            )
            &&& sets_behind(scaled, 7, "-f"@, "yuv4mpegpipe"@)
            &&& scaled.last() == output
        }),
{
    let encoded = distorted_args_for(distorted, output);
    assert(encoded[4] == "-i"@ && encoded[4int + 1] == distorted);
    assert(encoded[6] == "-vf"@ && encoded[6int + 1] == "format=yuv420p10le"@);
    assert(encoded[10] == "-f"@ && encoded[10int + 1] == "yuv4mpegpipe"@);
    let plain = reference_args_for(None, output);
    assert(plain[4] == "-f"@ && plain[4int + 1] == "yuv4mpegpipe"@);
    assert(plain[6] == "-i"@ && plain[6int + 1] == "pipe:0"@);
    assert(plain[8] == "-vf"@ && plain[8int + 1] == "format=yuv420p10le"@);
    assert(plain[12] == "-f"@ && plain[12int + 1] == "yuv4mpegpipe"@);
    let scaled = reference_args_for(Some((w, h)), output);
    assert(scaled[4] == "-f"@ && scaled[4int + 1] == "yuv4mpegpipe"@);
    assert(scaled[6] == "-i"@ && scaled[6int + 1] == "pipe:0"@);
    assert(scaled[8] == "-vf"@ && scaled[8int + 1] == reference_filter(Some((w, h))));
    assert(scaled[12] == "-f"@ && scaled[12int + 1] == "yuv4mpegpipe"@);
}

/// The tool compares the encoded side with the reference, by the given model, and writes
/// its log where it is looked for.
pub proof fn the_encoded_side_is_compared_with_the_reference(
    reference: Seq<char>,
    distorted: Seq<char>,
    model: Seq<char>,
    json: Seq<char>,
    n_threads: nat,
)
    ensures
        ({
            let args = vmaf_args_for(reference, distorted, model, json, n_threads);
            &&& sets(args, "-r"@, reference)
            &&& sets(args, "-d"@, distorted)
            &&& sets(args, "-m"@, "version="@ + model)
            &&& args.contains("--json"@)
            &&& sets(args, "-o"@, json)
            &&& sets(args, "--threads"@, dec(n_threads))
        }),
{
    let args = vmaf_args_for(reference, distorted, model, json, n_threads);
    assert(args[0] == "-r"@ && args[0int + 1] == reference);
    assert(args[2] == "-d"@ && args[2int + 1] == distorted);
    assert(args[4] == "-m"@ && args[4int + 1] == "version="@ + model);
    assert(args[6] == "--json"@);
    assert(args[7] == "-o"@ && args[7int + 1] == json);
    assert(args[9] == "--threads"@ && args[9int + 1] == dec(n_threads));
}

/// Preparing the two sides is quiet, and overwrites what an earlier run has left.
pub proof fn preparing_both_sides_is_quiet(
    distorted: Seq<char>,
    output: Seq<char>,
    scale: Option<(u32, u32)>,
)
    ensures
        quiet(distorted_args_for(distorted, output)),
        distorted_args_for(distorted, output)[3] == "-y"@,
        quiet(reference_args_for(scale, output)),
        reference_args_for(scale, output)[3] == "-y"@,
        sets(distorted_args_for(distorted, output), "-strict"@, "-1"@),
        sets(reference_args_for(scale, output), "-strict"@, "-1"@),
{
    let d = distorted_args_for(distorted, output);
    let r = reference_args_for(scale, output);
    assert(d[8] == "-strict"@ && d[8int + 1] == "-1"@);
    assert(r[10] == "-strict"@ && r[10int + 1] == "-1"@);
}

} // verus!
