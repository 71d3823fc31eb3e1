//! The fingerprint of everything that cached scenes, chunks and CRFs depend on.
use vstd::prelude::*;

use std::collections::hash_map::DefaultHasher;
use std::hash::Hasher;
use vstd::std_specs::hash::DefaultHasherAdditionalSpecFns;

use crate::config::{SceneDetectionConfig, SceneDetectionSpeedConfig, TargetQualityConfig};
use crate::encode::EncodeOptions;
use crate::ffms2::Crop;
use crate::number::{dec, dec_injective, dec_u64, hex, hex_u64, is_digit, lemma_dec_digits};
use crate::text::{join, joined, opt_view, plus, push_string, views};

verus! {

/// How the fractional numbers of a target quality are shown.
#[derive(Debug)]
pub struct ShownNumbers {
    pub jod: String,
    pub tolerance: String,
    pub max_encoded_percent: String,
}

/// How a field of a structure is shown.
pub open spec fn field_text(name: Seq<char>, value: Seq<char>) -> Seq<char> {
    name + ": "@ + value
}

/// How a structure with the given fields is shown.
pub open spec fn struct_text(name: Seq<char>, fields: Seq<Seq<char>>) -> Seq<char> {
    (name + " { "@) + joined(fields, ", "@) + " }"@
}

/// How an optional value is shown.
pub open spec fn option_text(value: Option<Seq<char>>) -> Seq<char> {
    match value {
        Some(text) => "Some("@ + text + ")"@,
        None => "None"@,
    }
}

pub open spec fn size_text(w: u32, h: u32) -> Seq<char> {
    "("@ + joined(seq![dec(w as nat), dec(h as nat)], ", "@) + ")"@
}

pub open spec fn scale_text(scale: Option<(u32, u32)>) -> Seq<char> {
    option_text(
        match scale {
            Some((w, h)) => Some(size_text(w, h)),
            None => None,
        },
    )
}

pub open spec fn crop_fields(c: Crop) -> Seq<Seq<char>> {
    seq![
        field_text("w"@, dec(c.w as nat)),
        field_text("h"@, dec(c.h as nat)),
        field_text("x"@, dec(c.x as nat)),
        field_text("y"@, dec(c.y as nat)),
    ]
}

pub open spec fn crop_text(crop: Option<Crop>) -> Seq<char> {
    option_text(
        match crop {
            Some(c) => Some(struct_text("Crop"@, crop_fields(c))),
            None => None,
        },
    )
}

pub open spec fn depth_text(depth: Option<u8>) -> Seq<char> {
    option_text(
        match depth {
            Some(d) => Some(dec(d as nat)),
            None => None,
        },
    )
}

pub open spec fn speed_text(speed: SceneDetectionSpeedConfig) -> Seq<char> {
    match speed {
        SceneDetectionSpeedConfig::Standard => "Standard"@,
        SceneDetectionSpeedConfig::Fast => "Fast"@,
    }
}

pub open spec fn height_text(height: Option<u32>) -> Seq<char> {
    option_text(
        match height {
            Some(h) => Some(dec(h as nat)),
            None => None,
        },
    )
}

pub open spec fn scene_fields(c: SceneDetectionConfig) -> Seq<Seq<char>> {
    seq![
        field_text("min_scene_len"@, dec(c.min_scene_len as nat)),
        field_text("extra_split_sec"@, dec(c.extra_split_sec as nat)),
        field_text("extra_split"@, dec(c.extra_split as nat)),
        field_text("speed"@, speed_text(c.speed)),
        field_text("downscale_height"@, height_text(c.downscale_height)),
    ]
}

pub open spec fn scene_text(c: SceneDetectionConfig) -> Seq<char> {
    struct_text("SceneDetectionConfig"@, scene_fields(c))
}

pub open spec fn quality_fields(t: TargetQualityConfig, shown: ShownNumbers) -> Seq<Seq<char>> {
    seq![
        field_text("jod"@, shown.jod@),
        field_text("min_crf"@, dec(t.min_crf as nat)),
        field_text("max_crf"@, dec(t.max_crf as nat)),
        field_text("min_probes"@, dec(t.min_probes as nat)),
        field_text("max_probes"@, dec(t.max_probes as nat)),
        field_text("tolerance"@, shown.tolerance@),
        field_text("probe_preset"@, dec(t.probe_preset as nat)),
        field_text("max_encoded_percent"@, shown.max_encoded_percent@),
    ]
}

pub open spec fn quality_text(tq: Option<TargetQualityConfig>, shown: ShownNumbers) -> Seq<char> {
    option_text(
        match tq {
            Some(t) => Some(struct_text("TargetQualityConfig"@, quality_fields(t, shown))),
            None => None,
        },
    )
}

/// The parts of the text of a profile: the encoder options, then the scale, the
/// crop, the bit depth, the scene detection and the target quality.
pub open spec fn profile_parts(
    args: Seq<Seq<char>>,
    opts: EncodeOptions,
    scenes: SceneDetectionConfig,
    tq: Option<TargetQualityConfig>,
    shown: ShownNumbers,
) -> Seq<Seq<char>> {
    seq![
        joined(args, " "@),
        scale_text(opts.scale),
        crop_text(opts.crop),
        depth_text(opts.target_bit_depth),
        scene_text(scenes),
        quality_text(tq, shown),
    ]
}

/// The text of a profile.
pub open spec fn profile_text(
    args: Seq<Seq<char>>,
    opts: EncodeOptions,
    scenes: SceneDetectionConfig,
    tq: Option<TargetQualityConfig>,
    shown: ShownNumbers,
) -> Seq<char> {
    joined(profile_parts(args, opts, scenes, tq, shown), "|"@)
}

/// The fingerprint of a text: its hash in sixteen hexadecimal digits.
pub open spec fn fingerprint_of(text: Seq<char>) -> Seq<char> {
    hex(
        DefaultHasher::spec_finish(seq![vstd::utf8::encode_utf8(text), seq![0xffu8]]) as nat,
        16,
    )
}

fn field(name: &str, value: &str) -> (r: String)
    ensures
        r@ == field_text(name@, value@),
{
    plus(plus(name.to_owned(), ": "), value)
}

fn number_field(name: &str, value: u64) -> (r: String)
    ensures
        r@ == field_text(name@, dec(value as nat)),
{
    field(name, dec_u64(value).as_str())
}

fn show_struct(name: &str, fields: &Vec<String>) -> (r: String)
    ensures
        r@ == struct_text(name@, views(fields@)),
{
    let head = plus(name.to_owned(), " { ");
    plus(plus(head, join(fields, ", ").as_str()), " }")
}

fn show_option(value: Option<String>) -> (r: String)
    ensures
        r@ == option_text(opt_view(value)),
{
    match value {
        Some(text) => plus(plus("Some(".to_owned(), text.as_str()), ")"),
        None => "None".to_owned(),
    }
}

fn show_scale(scale: Option<(u32, u32)>) -> (r: String)
    ensures
        r@ == scale_text(scale),
{
    let size = match scale {
        Some((w, h)) => {
            let mut sides: Vec<String> = Vec::new();
            push_string(&mut sides, dec_u64(w as u64));
            push_string(&mut sides, dec_u64(h as u64));
            assert(views(sides@) =~= seq![dec(w as nat), dec(h as nat)]);
            Some(plus(plus("(".to_owned(), join(&sides, ", ").as_str()), ")"))
        },
        None => None,
    };
    show_option(size)
}

fn show_crop(crop: Option<Crop>) -> (r: String)
    ensures
        r@ == crop_text(crop),
{
    let text = match crop {
        Some(c) => {
            let mut fields: Vec<String> = Vec::new();
            push_string(&mut fields, number_field("w", c.w as u64));
            push_string(&mut fields, number_field("h", c.h as u64));
            push_string(&mut fields, number_field("x", c.x as u64));
            push_string(&mut fields, number_field("y", c.y as u64));
            assert(views(fields@) =~= crop_fields(c));
            Some(show_struct("Crop", &fields))
        },
        None => None,
    };
    show_option(text)
}

fn show_scenes(c: &SceneDetectionConfig) -> (r: String)
    ensures
        r@ == scene_text(*c),
{
    let speed = match c.speed {
        SceneDetectionSpeedConfig::Standard => "Standard",
        SceneDetectionSpeedConfig::Fast => "Fast",
    };
    let height = show_option(
        match c.downscale_height {
            Some(h) => Some(dec_u64(h as u64)),
            None => None,
        },
    );
    let mut fields: Vec<String> = Vec::new();
    push_string(&mut fields, number_field("min_scene_len", c.min_scene_len as u64));
    push_string(&mut fields, number_field("extra_split_sec", c.extra_split_sec as u64));
    push_string(&mut fields, number_field("extra_split", c.extra_split as u64));
    push_string(&mut fields, field("speed", speed));
    push_string(&mut fields, field("downscale_height", height.as_str()));
    assert(views(fields@) =~= scene_fields(*c));
    show_struct("SceneDetectionConfig", &fields)
}

fn show_quality(tq: Option<&TargetQualityConfig>, shown: &ShownNumbers) -> (r: String)
    ensures
        r@ == quality_text(crate::config::behind(tq), *shown),
{
    let text = match tq {
        Some(t) => {
            let mut fields: Vec<String> = Vec::new();
            push_string(&mut fields, field("jod", shown.jod.as_str()));
            push_string(&mut fields, number_field("min_crf", t.min_crf as u64));
            push_string(&mut fields, number_field("max_crf", t.max_crf as u64));
            push_string(&mut fields, number_field("min_probes", t.min_probes as u64));
            push_string(&mut fields, number_field("max_probes", t.max_probes as u64));
            push_string(&mut fields, field("tolerance", shown.tolerance.as_str()));
            push_string(&mut fields, number_field("probe_preset", t.probe_preset as u64));
            push_string(
                &mut fields,
                field("max_encoded_percent", shown.max_encoded_percent.as_str()),
            );
            assert(views(fields@) =~= quality_fields(*t, *shown));
            Some(show_struct("TargetQualityConfig", &fields))
        },
        None => None,
    };
    show_option(text)
}

fn copy_args(args: &[String]) -> (r: Vec<String>)
    ensures
        views(r@) == views(args@),
{
    let mut r: Vec<String> = Vec::new();
    let mut i: usize = 0;
    while i < args.len()
        invariant
            i <= args@.len(),
            r@.len() == i,
            forall|k: int| 0 <= k < i ==> #[trigger] r@[k]@ == args@[k]@,
        decreases args@.len() - i,
    {
        r.push(args[i].clone());
        i += 1;
    }
    assert(views(r@) =~= views(args@));
    r
}

/// The fingerprint of a profile, by which a later run sees whether it changed.
/// `shown` holds how the fractional numbers of the target quality are shown.
pub fn profile_fingerprint(
    merged_args: &[String],
    opts: &EncodeOptions,
    scene_cfg: &SceneDetectionConfig,
    tq: Option<&TargetQualityConfig>,
    shown: &ShownNumbers,
) -> (r: String)
    ensures
        r@ == fingerprint_of(
            profile_text(
                views(merged_args@),
                *opts,
                *scene_cfg,
                crate::config::behind(tq),
                *shown,
            ),
        ),
{
    let depth = show_option(
        match opts.target_bit_depth {
            Some(d) => Some(dec_u64(d as u64)),
            None => None,
        },
    );
    let args = copy_args(merged_args);
    let mut parts: Vec<String> = Vec::new();
    push_string(&mut parts, join(&args, " "));
    push_string(&mut parts, show_scale(opts.scale));
    push_string(&mut parts, show_crop(opts.crop));
    push_string(&mut parts, depth);
    push_string(&mut parts, show_scenes(scene_cfg));
    push_string(&mut parts, show_quality(tq, shown));
    assert(views(parts@) =~= profile_parts(
        views(merged_args@),
        *opts,
        *scene_cfg,
        crate::config::behind(tq),
        *shown,
    ));
    let text = join(&parts, "|");
    let mut h = DefaultHasher::new();
    h.write(text.as_str().as_bytes());
    let end: [u8; 1] = [0xff];
    assert(end@ =~= seq![0xffu8]);
    h.write(end.as_slice());
    assert(h@ =~= seq![vstd::utf8::encode_utf8(text@), seq![0xffu8]]);
    hex_u64(h.finish(), 16)
}

/// The text of a list has no character that neither its elements nor the
/// separators have.
proof fn lemma_joined_without(parts: Seq<Seq<char>>, sep: Seq<char>, c: char)
    requires
        forall|k: int, i: int|
            #![trigger parts[k][i]]
            0 <= k < parts.len() && 0 <= i < parts[k].len() ==> parts[k][i] != c,
        forall|i: int| 0 <= i < sep.len() ==> sep[i] != c,
    ensures
        forall|i: int| 0 <= i < joined(parts, sep).len() ==> joined(parts, sep)[i] != c,
    decreases parts.len(),
{
    if parts.len() == 1 {
        assert(joined(parts, sep) =~= parts[0]);
        assert forall|i: int| 0 <= i < joined(parts, sep).len() implies joined(parts, sep)[i]
            != c by {
            assert(parts[0][i] != c);
        }
    } else if parts.len() > 1 {
        let init = parts.drop_last();
        assert forall|k: int, i: int|
            #![trigger init[k][i]]
            0 <= k < init.len() && 0 <= i < init[k].len() implies init[k][i] != c by {
            assert(init[k] == parts[k]);
            assert(parts[k][i] != c);
        }
        lemma_joined_without(init, sep, c);
        let n = parts.len() - 1;
        let head = joined(init, sep);
        let s = joined(parts, sep);
        assert(s =~= head + sep + parts[n]);
        assert forall|i: int| 0 <= i < s.len() implies s[i] != c by {
            if i < head.len() {
                assert(s[i] == head[i]);
            } else if i < head.len() + sep.len() {
                assert(s[i] == sep[i - head.len()]);
            } else {
                assert(s[i] == parts[n][i - head.len() - sep.len()]);
            }
        }
    }
}

proof fn lemma_digits_lack(n: nat, c: char)
    requires
        !is_digit(c),
    ensures
        forall|i: int| 0 <= i < dec(n).len() ==> dec(n)[i] != c,
{
    lemma_dec_digits(n);
    assert forall|i: int| 0 <= i < dec(n).len() implies dec(n)[i] != c by {
        assert(is_digit(dec(n)[i]));
    }
}

/// What follows the last `c` of a text, and what comes before it, are told by
/// the text.
proof fn lemma_last_part(x: Seq<char>, p: Seq<char>, y: Seq<char>, q: Seq<char>, c: char)
    requires
        x + seq![c] + p == y + seq![c] + q,
        forall|i: int| 0 <= i < p.len() ==> p[i] != c,
        forall|i: int| 0 <= i < q.len() ==> q[i] != c,
    ensures
        x == y,
        p == q,
{
    let s = x + seq![c] + p;
    let t = y + seq![c] + q;
    assert(s.len() == x.len() + 1 + p.len() && t.len() == y.len() + 1 + q.len());
    assert(s == t);
    assert(s[x.len() as int] == c);
    assert(t[y.len() as int] == c);
    if p.len() < q.len() {
        assert(t[x.len() as int] == q[x.len() - y.len() - 1]);
    } else if q.len() < p.len() {
        assert(s[y.len() as int] == p[y.len() - x.len() - 1]);
    }
    assert(s.take(x.len() as int) =~= x);
    assert(t.take(y.len() as int) =~= y);
    assert(s.skip(x.len() as int + 1) =~= p);
    assert(t.skip(y.len() as int + 1) =~= q);
}

/// Lists of the same length, in which only the first element may hold a `c`, are
/// told by their texts.
proof fn lemma_parts_told(a: Seq<Seq<char>>, b: Seq<Seq<char>>, c: char)
    requires
        a.len() == b.len(),
        a.len() > 0,
        forall|k: int, i: int|
            #![trigger a[k][i]]
            1 <= k < a.len() && 0 <= i < a[k].len() ==> a[k][i] != c,
        forall|k: int, i: int|
            #![trigger b[k][i]]
            1 <= k < b.len() && 0 <= i < b[k].len() ==> b[k][i] != c,
        joined(a, seq![c]) == joined(b, seq![c]),
    ensures
        a == b,
    decreases a.len(),
{
    if a.len() == 1 {
        assert(a =~= b);
    } else {
        let n = a.len() - 1;
        let ia = a.drop_last();
        let ib = b.drop_last();
        assert forall|i: int| 0 <= i < a.last().len() implies a.last()[i] != c by {
            assert(a[n][i] != c);
        }
        assert forall|i: int| 0 <= i < b.last().len() implies b.last()[i] != c by {
            assert(b[n][i] != c);
        }
        lemma_last_part(joined(ia, seq![c]), a.last(), joined(ib, seq![c]), b.last(), c);
        assert forall|k: int, i: int|
            #![trigger ia[k][i]]
            1 <= k < ia.len() && 0 <= i < ia[k].len() implies ia[k][i] != c by {
            assert(a[k][i] != c);
        }
        assert forall|k: int, i: int|
            #![trigger ib[k][i]]
            1 <= k < ib.len() && 0 <= i < ib[k].len() implies ib[k][i] != c by {
            assert(b[k][i] != c);
        }
        lemma_parts_told(ia, ib, c);
        assert(a =~= ia.push(a.last()));
        assert(b =~= ib.push(b.last()));
    }
}

/// The character does not occur in the text.
pub open spec fn lacks(s: Seq<char>, c: char) -> bool {
    forall|i: int| 0 <= i < s.len() ==> s[i] != c
}

proof fn lemma_lacks_both(a: Seq<char>, b: Seq<char>, c: char)
    requires
        lacks(a, c),
        lacks(b, c),
    ensures
        lacks(a + b, c),
{
    let s = a + b;
    assert forall|i: int| 0 <= i < s.len() implies s[i] != c by {
        if i < a.len() {
            assert(s[i] == a[i]);
        } else {
            assert(s[i] == b[i - a.len()]);
        }
    }
}

/// What stands between a common start and a common end is told by the text.
proof fn lemma_inner_told(p: Seq<char>, a: Seq<char>, b: Seq<char>, q: Seq<char>)
    requires
        p + a + q == p + b + q,
    ensures
        a == b,
{
    let s = p + a + q;
    let t = p + b + q;
    assert(s.len() == p.len() + a.len() + q.len() && t.len() == p.len() + b.len() + q.len());
    assert(s.subrange(p.len() as int, (p.len() + a.len()) as int) =~= a);
    assert(t.subrange(p.len() as int, (p.len() + b.len()) as int) =~= b);
}

proof fn lemma_field_told(name: Seq<char>, a: Seq<char>, b: Seq<char>)
    requires
        field_text(name, a) == field_text(name, b),
    ensures
        a == b,
{
    let none = Seq::<char>::empty();
    assert(field_text(name, a) =~= (name + ": "@) + a + none);
    assert(field_text(name, b) =~= (name + ": "@) + b + none);
    lemma_inner_told(name + ": "@, a, b, none);
}

proof fn lemma_option_told(a: Option<Seq<char>>, b: Option<Seq<char>>)
    requires
        option_text(a) == option_text(b),
    ensures
        a == b,
{
    reveal_strlit("Some(");
    reveal_strlit("None");
    assert(a is Some ==> option_text(a)[0] == 'S');
    assert(b is Some ==> option_text(b)[0] == 'S');
    assert(a is None ==> option_text(a)[0] == 'N');
    assert(b is None ==> option_text(b)[0] == 'N');
    if let (Some(x), Some(y)) = (a, b) {
        lemma_inner_told("Some("@, x, y, ")"@);
    }
}

proof fn lemma_option_lacks(a: Option<Seq<char>>, c: char)
    requires
        c == ',' || c == '|',
        a matches Some(t) ==> lacks(t, c),
    ensures
        lacks(option_text(a), c),
{
    reveal_strlit("Some(");
    reveal_strlit(")");
    reveal_strlit("None");
    if let Some(t) = a {
        lemma_lacks_both("Some("@, t, c);
        lemma_lacks_both("Some("@ + t, ")"@, c);
    }
}

proof fn lemma_field_lacks(name: Seq<char>, value: Seq<char>, c: char)
    requires
        c == ',' || c == '|',
        lacks(name, c),
        lacks(value, c),
    ensures
        lacks(field_text(name, value), c),
{
    reveal_strlit(": ");
    lemma_lacks_both(name, ": "@, c);
    lemma_lacks_both(name + ": "@, value, c);
}

/// Lists of the same length, in which only the first element may hold a comma, are
/// told by their texts.
proof fn lemma_list_told(a: Seq<Seq<char>>, b: Seq<Seq<char>>)
    requires
        a.len() == b.len(),
        a.len() > 0,
        forall|k: int| 1 <= k < a.len() ==> lacks(#[trigger] a[k], ','),
        forall|k: int| 1 <= k < b.len() ==> lacks(#[trigger] b[k], ','),
        joined(a, ", "@) == joined(b, ", "@),
    ensures
        a == b,
    decreases a.len(),
{
    if a.len() == 1 {
        assert(a =~= b);
    } else {
        reveal_strlit(", ");
        let n = a.len() - 1;
        let ia = a.drop_last();
        let ib = b.drop_last();
        let x = joined(ia, ", "@);
        let y = joined(ib, ", "@);
        assert(a[n] == a.last() && b[n] == b.last());
        lemma_lacks_both(seq![' '], a.last(), ',');
        lemma_lacks_both(seq![' '], b.last(), ',');
        assert(x + ", "@ + a.last() =~= x + seq![','] + (seq![' '] + a.last()));
        assert(y + ", "@ + b.last() =~= y + seq![','] + (seq![' '] + b.last()));
        lemma_last_part(x, seq![' '] + a.last(), y, seq![' '] + b.last(), ',');
        let none = Seq::<char>::empty();
        assert(seq![' '] + a.last() =~= seq![' '] + a.last() + none);
        assert(seq![' '] + b.last() =~= seq![' '] + b.last() + none);
        lemma_inner_told(seq![' '], a.last(), b.last(), none);
        assert forall|k: int| 1 <= k < ia.len() implies lacks(#[trigger] ia[k], ',') by {
            assert(ia[k] == a[k]);
        }
        assert forall|k: int| 1 <= k < ib.len() implies lacks(#[trigger] ib[k], ',') by {
            assert(ib[k] == b[k]);
        }
        lemma_list_told(ia, ib);
        assert(a =~= ia.push(a.last()));
        assert(b =~= ib.push(b.last()));
    }
}

proof fn lemma_list_lacks_bar(a: Seq<Seq<char>>)
    requires
        forall|k: int| 0 <= k < a.len() ==> lacks(#[trigger] a[k], '|'),
    ensures
        lacks(joined(a, ", "@), '|'),
{
    reveal_strlit(", ");
    assert forall|k: int, i: int|
        #![trigger a[k][i]]
        0 <= k < a.len() && 0 <= i < a[k].len() implies a[k][i] != '|' by {
        assert(lacks(a[k], '|'));
    }
    lemma_joined_without(a, ", "@, '|');
}

proof fn lemma_struct_told(name: Seq<char>, a: Seq<Seq<char>>, b: Seq<Seq<char>>)
    requires
        a.len() == b.len(),
        a.len() > 0,
        forall|k: int| 1 <= k < a.len() ==> lacks(#[trigger] a[k], ','),
        forall|k: int| 1 <= k < b.len() ==> lacks(#[trigger] b[k], ','),
        struct_text(name, a) == struct_text(name, b),
    ensures
        a == b,
{
    lemma_inner_told(name + " { "@, joined(a, ", "@), joined(b, ", "@), " }"@);
    lemma_list_told(a, b);
}

proof fn lemma_struct_lacks_bar(name: Seq<char>, a: Seq<Seq<char>>)
    requires
        lacks(name, '|'),
        forall|k: int| 0 <= k < a.len() ==> lacks(#[trigger] a[k], '|'),
    ensures
        lacks(struct_text(name, a), '|'),
{
    reveal_strlit(" { ");
    reveal_strlit(" }");
    lemma_list_lacks_bar(a);
    lemma_lacks_both(name, " { "@, '|');
    lemma_lacks_both(name + " { "@, joined(a, ", "@), '|');
    lemma_lacks_both((name + " { "@) + joined(a, ", "@), " }"@, '|');
}

proof fn lemma_scale(a: Option<(u32, u32)>)
    ensures
        lacks(scale_text(a), '|'),
        forall|b: Option<(u32, u32)>| scale_text(a) == #[trigger] scale_text(b) ==> a == b,
{
    reveal_strlit("(");
    reveal_strlit(")");
    if let Some((w, h)) = a {
        let sides = seq![dec(w as nat), dec(h as nat)];
        lemma_digits_lack(w as nat, '|');
        lemma_digits_lack(h as nat, '|');
        lemma_list_lacks_bar(sides);
        lemma_lacks_both("("@, joined(sides, ", "@), '|');
        lemma_lacks_both("("@ + joined(sides, ", "@), ")"@, '|');
        lemma_option_lacks(Some(size_text(w, h)), '|');
    } else {
        lemma_option_lacks(None, '|');
    }
    assert forall|b: Option<(u32, u32)>| scale_text(a) == #[trigger] scale_text(b) implies a
        == b by {
        let ta = match a {
            Some((w, h)) => Some(size_text(w, h)),
            None => None,
        };
        let tb = match b {
            Some((w, h)) => Some(size_text(w, h)),
            None => None,
        };
        lemma_option_told(ta, tb);
        if let (Some((w, h)), Some((v, g))) = (a, b) {
            let x = seq![dec(w as nat), dec(h as nat)];
            let y = seq![dec(v as nat), dec(g as nat)];
            lemma_inner_told("("@, joined(x, ", "@), joined(y, ", "@), ")"@);
            lemma_digits_lack(h as nat, ',');
            lemma_digits_lack(g as nat, ',');
            lemma_list_told(x, y);
            assert(x[0] == y[0] && x[1] == y[1]);
            dec_injective(w as nat, v as nat);
            dec_injective(h as nat, g as nat);
        }
    }
}

proof fn lemma_number_field(name: Seq<char>, a: nat, b: nat)
    requires
        lacks(name, ','),
        lacks(name, '|'),
    ensures
        lacks(field_text(name, dec(a)), ','),
        lacks(field_text(name, dec(a)), '|'),
        lacks(field_text(name, dec(b)), ','),
        lacks(field_text(name, dec(b)), '|'),
        field_text(name, dec(a)) == field_text(name, dec(b)) ==> a == b,
{
    lemma_digits_lack(a, ',');
    lemma_digits_lack(a, '|');
    lemma_digits_lack(b, ',');
    lemma_digits_lack(b, '|');
    lemma_field_lacks(name, dec(a), ',');
    lemma_field_lacks(name, dec(a), '|');
    lemma_field_lacks(name, dec(b), ',');
    lemma_field_lacks(name, dec(b), '|');
    if field_text(name, dec(a)) == field_text(name, dec(b)) {
        lemma_field_told(name, dec(a), dec(b));
        dec_injective(a, b);
    }
}

proof fn lemma_crops(a: Crop, b: Crop)
    ensures
        lacks(struct_text("Crop"@, crop_fields(a)), '|'),
        struct_text("Crop"@, crop_fields(a)) == struct_text("Crop"@, crop_fields(b)) ==> a == b,
{
    reveal_strlit("Crop");
    reveal_strlit("w");
    reveal_strlit("h");
    reveal_strlit("x");
    reveal_strlit("y");
    let fa = crop_fields(a);
    let fb = crop_fields(b);
    lemma_number_field("w"@, a.w as nat, b.w as nat);
    lemma_number_field("h"@, a.h as nat, b.h as nat);
    lemma_number_field("x"@, a.x as nat, b.x as nat);
    lemma_number_field("y"@, a.y as nat, b.y as nat);
    assert forall|k: int| 0 <= k < fa.len() implies lacks(#[trigger] fa[k], '|') by {}
    lemma_struct_lacks_bar("Crop"@, fa);
    if struct_text("Crop"@, fa) == struct_text("Crop"@, fb) {
        assert forall|k: int| 1 <= k < fa.len() implies lacks(#[trigger] fa[k], ',') by {}
        assert forall|k: int| 1 <= k < fb.len() implies lacks(#[trigger] fb[k], ',') by {}
        lemma_struct_told("Crop"@, fa, fb);
        assert(fa[0] == fb[0] && fa[1] == fb[1] && fa[2] == fb[2] && fa[3] == fb[3]);
    }
}

proof fn lemma_crop(a: Option<Crop>, b: Option<Crop>)
    ensures
        lacks(crop_text(a), '|'),
        crop_text(a) == crop_text(b) ==> a == b,
{
    let ta = match a {
        Some(c) => Some(struct_text("Crop"@, crop_fields(c))),
        None => None,
    };
    let tb = match b {
        Some(c) => Some(struct_text("Crop"@, crop_fields(c))),
        None => None,
    };
    if let Some(c) = a {
        lemma_crops(c, c);
    }
    lemma_option_lacks(ta, '|');
    if crop_text(a) == crop_text(b) {
        lemma_option_told(ta, tb);
        if let (Some(c), Some(d)) = (a, b) {
            lemma_crops(c, d);
        }
    }
}

proof fn lemma_optional_number(a: Option<nat>, b: Option<nat>, ta: Option<Seq<char>>, tb: Option<
    Seq<char>,
>)
    requires
        ta == (match a {
            Some(n) => Some(dec(n)),
            None => None,
        }),
        tb == (match b {
            Some(n) => Some(dec(n)),
            None => None,
        }),
    ensures
        lacks(option_text(ta), '|'),
        lacks(option_text(ta), ','),
        option_text(ta) == option_text(tb) ==> a == b,
{
    if let Some(n) = a {
        lemma_digits_lack(n, '|');
        lemma_digits_lack(n, ',');
    }
    lemma_option_lacks(ta, '|');
    lemma_option_lacks(ta, ',');
    if option_text(ta) == option_text(tb) {
        lemma_option_told(ta, tb);
        if let (Some(n), Some(m)) = (a, b) {
            dec_injective(n, m);
        }
    }
}

proof fn lemma_depth(a: Option<u8>, b: Option<u8>)
    ensures
        lacks(depth_text(a), '|'),
        depth_text(a) == depth_text(b) ==> a == b,
{
    let na = match a {
        Some(d) => Some(d as nat),
        None => None,
    };
    let nb = match b {
        Some(d) => Some(d as nat),
        None => None,
    };
    let ta = match a {
        Some(d) => Some(dec(d as nat)),
        None => None,
    };
    let tb = match b {
        Some(d) => Some(dec(d as nat)),
        None => None,
    };
    lemma_optional_number(na, nb, ta, tb);
}

proof fn lemma_height(a: Option<u32>, b: Option<u32>)
    ensures
        lacks(height_text(a), '|'),
        lacks(height_text(a), ','),
        height_text(a) == height_text(b) ==> a == b,
{
    let na = match a {
        Some(h) => Some(h as nat),
        None => None,
    };
    let nb = match b {
        Some(h) => Some(h as nat),
        None => None,
    };
    let ta = match a {
        Some(h) => Some(dec(h as nat)),
        None => None,
    };
    let tb = match b {
        Some(h) => Some(dec(h as nat)),
        None => None,
    };
    lemma_optional_number(na, nb, ta, tb);
}

proof fn lemma_speed(a: SceneDetectionSpeedConfig, b: SceneDetectionSpeedConfig)
    ensures
        lacks(speed_text(a), '|'),
        lacks(speed_text(a), ','),
        speed_text(a) == speed_text(b) ==> a == b,
{
    reveal_strlit("Standard");
    reveal_strlit("Fast");
    assert("Standard"@.len() != "Fast"@.len());
}

proof fn lemma_scene_names()
    ensures
        lacks("SceneDetectionConfig"@, '|'),
        lacks("min_scene_len"@, '|') && lacks("min_scene_len"@, ','),
        lacks("extra_split_sec"@, '|') && lacks("extra_split_sec"@, ','),
        lacks("extra_split"@, '|') && lacks("extra_split"@, ','),
        lacks("speed"@, '|') && lacks("speed"@, ','),
        lacks("downscale_height"@, '|') && lacks("downscale_height"@, ','),
{
    reveal_strlit("SceneDetectionConfig");
    reveal_strlit("min_scene_len");
    reveal_strlit("extra_split_sec");
    reveal_strlit("extra_split");
    reveal_strlit("speed");
    reveal_strlit("downscale_height");
}

proof fn lemma_scene_fields(c: SceneDetectionConfig)
    ensures
        forall|k: int| 0 <= k < 5 ==> lacks(#[trigger] scene_fields(c)[k], '|'),
        forall|k: int| 0 <= k < 5 ==> lacks(#[trigger] scene_fields(c)[k], ','),
{
    lemma_scene_names();
    lemma_number_field("min_scene_len"@, c.min_scene_len as nat, 0);
    lemma_number_field("extra_split_sec"@, c.extra_split_sec as nat, 0);
    lemma_number_field("extra_split"@, c.extra_split as nat, 0);
    lemma_speed(c.speed, c.speed);
    lemma_height(c.downscale_height, c.downscale_height);
    lemma_field_lacks("speed"@, speed_text(c.speed), '|');
    lemma_field_lacks("speed"@, speed_text(c.speed), ',');
    lemma_field_lacks("downscale_height"@, height_text(c.downscale_height), '|');
    lemma_field_lacks("downscale_height"@, height_text(c.downscale_height), ',');
}

proof fn lemma_scenes(a: SceneDetectionConfig, b: SceneDetectionConfig)
    ensures
        lacks(scene_text(a), '|'),
        scene_text(a) == scene_text(b) ==> a == b,
{
    let fa = scene_fields(a);
    let fb = scene_fields(b);
    lemma_scene_names();
    lemma_scene_fields(a);
    lemma_scene_fields(b);
    lemma_struct_lacks_bar("SceneDetectionConfig"@, fa);
    if scene_text(a) == scene_text(b) {
        lemma_struct_told("SceneDetectionConfig"@, fa, fb);
        assert(fa[0] == fb[0] && fa[1] == fb[1] && fa[2] == fb[2] && fa[3] == fb[3] && fa[4]
            == fb[4]);
        lemma_number_field("min_scene_len"@, a.min_scene_len as nat, b.min_scene_len as nat);
        lemma_number_field("extra_split_sec"@, a.extra_split_sec as nat, b.extra_split_sec as nat);
        lemma_number_field("extra_split"@, a.extra_split as nat, b.extra_split as nat);
        lemma_field_told("speed"@, speed_text(a.speed), speed_text(b.speed));
        lemma_speed(a.speed, b.speed);
        lemma_field_told(
            "downscale_height"@,
            height_text(a.downscale_height),
            height_text(b.downscale_height),
        );
        lemma_height(a.downscale_height, b.downscale_height);
    }
}

/// The numbers are shown without commas and bars.
pub open spec fn plainly_shown(shown: ShownNumbers) -> bool {
    &&& lacks(shown.jod@, ',') && lacks(shown.jod@, '|')
    &&& lacks(shown.tolerance@, ',') && lacks(shown.tolerance@, '|')
    &&& lacks(shown.max_encoded_percent@, ',') && lacks(shown.max_encoded_percent@, '|')
}

/// Target qualities are the same, as far as they are shown.
pub open spec fn shown_alike(
    a: Option<TargetQualityConfig>,
    b: Option<TargetQualityConfig>,
    shown_a: ShownNumbers,
    shown_b: ShownNumbers,
) -> bool {
    match (a, b) {
        (None, None) => true,
        (Some(a), Some(b)) => {
            &&& a.min_crf == b.min_crf && a.max_crf == b.max_crf
            &&& a.min_probes == b.min_probes && a.max_probes == b.max_probes
            &&& a.probe_preset == b.probe_preset
            &&& shown_a.jod@ == shown_b.jod@
            &&& shown_a.tolerance@ == shown_b.tolerance@
            &&& shown_a.max_encoded_percent@ == shown_b.max_encoded_percent@
        },
        _ => false,
    }
}

proof fn lemma_quality_names()
    ensures
        lacks("TargetQualityConfig"@, '|'),
        lacks("jod"@, '|') && lacks("jod"@, ','),
        lacks("min_crf"@, '|') && lacks("min_crf"@, ','),
        lacks("max_crf"@, '|') && lacks("max_crf"@, ','),
        lacks("min_probes"@, '|') && lacks("min_probes"@, ','),
        lacks("max_probes"@, '|') && lacks("max_probes"@, ','),
        lacks("tolerance"@, '|') && lacks("tolerance"@, ','),
        lacks("probe_preset"@, '|') && lacks("probe_preset"@, ','),
        lacks("max_encoded_percent"@, '|') && lacks("max_encoded_percent"@, ','),
{
    reveal_strlit("TargetQualityConfig");
    reveal_strlit("jod");
    reveal_strlit("min_crf");
    reveal_strlit("max_crf");
    reveal_strlit("min_probes");
    reveal_strlit("max_probes");
    reveal_strlit("tolerance");
    reveal_strlit("probe_preset");
    reveal_strlit("max_encoded_percent");
}

proof fn lemma_quality_fields(t: TargetQualityConfig, shown: ShownNumbers)
    requires
        plainly_shown(shown),
    ensures
        forall|k: int| 0 <= k < 8 ==> lacks(#[trigger] quality_fields(t, shown)[k], '|'),
        forall|k: int| 0 <= k < 8 ==> lacks(#[trigger] quality_fields(t, shown)[k], ','),
{
    lemma_quality_names();
    lemma_number_field("min_crf"@, t.min_crf as nat, 0);
    lemma_number_field("max_crf"@, t.max_crf as nat, 0);
    lemma_number_field("min_probes"@, t.min_probes as nat, 0);
    lemma_number_field("max_probes"@, t.max_probes as nat, 0);
    lemma_number_field("probe_preset"@, t.probe_preset as nat, 0);
    lemma_field_lacks("jod"@, shown.jod@, '|');
    lemma_field_lacks("jod"@, shown.jod@, ',');
    lemma_field_lacks("tolerance"@, shown.tolerance@, '|');
    lemma_field_lacks("tolerance"@, shown.tolerance@, ',');
    lemma_field_lacks("max_encoded_percent"@, shown.max_encoded_percent@, '|');
    lemma_field_lacks("max_encoded_percent"@, shown.max_encoded_percent@, ',');
}

proof fn lemma_qualities(
    a: TargetQualityConfig,
    b: TargetQualityConfig,
    shown_a: ShownNumbers,
    shown_b: ShownNumbers,
)
    requires
        plainly_shown(shown_a),
        plainly_shown(shown_b),
        struct_text("TargetQualityConfig"@, quality_fields(a, shown_a)) == struct_text(
            "TargetQualityConfig"@,
            quality_fields(b, shown_b),
        ),
    ensures
        shown_alike(Some(a), Some(b), shown_a, shown_b),
{
    let fa = quality_fields(a, shown_a);
    let fb = quality_fields(b, shown_b);
    lemma_quality_names();
    lemma_quality_fields(a, shown_a);
    lemma_quality_fields(b, shown_b);
    lemma_struct_told("TargetQualityConfig"@, fa, fb);
    assert(fa[0] == fb[0] && fa[1] == fb[1] && fa[2] == fb[2] && fa[3] == fb[3] && fa[4] == fb[4]
        && fa[5] == fb[5] && fa[6] == fb[6] && fa[7] == fb[7]);
    lemma_field_told("jod"@, shown_a.jod@, shown_b.jod@);
    lemma_number_field("min_crf"@, a.min_crf as nat, b.min_crf as nat);
    lemma_number_field("max_crf"@, a.max_crf as nat, b.max_crf as nat);
    lemma_number_field("min_probes"@, a.min_probes as nat, b.min_probes as nat);
    lemma_number_field("max_probes"@, a.max_probes as nat, b.max_probes as nat);
    lemma_field_told("tolerance"@, shown_a.tolerance@, shown_b.tolerance@);
    lemma_number_field("probe_preset"@, a.probe_preset as nat, b.probe_preset as nat);
    lemma_field_told(
        "max_encoded_percent"@,
        shown_a.max_encoded_percent@,
        shown_b.max_encoded_percent@,
    );
}

spec fn quality_shown(tq: Option<TargetQualityConfig>, shown: ShownNumbers) -> Option<Seq<char>> {
    match tq {
        Some(t) => Some(struct_text("TargetQualityConfig"@, quality_fields(t, shown))),
        None => None,
    }
}

proof fn lemma_quality_lacks_bar(tq: Option<TargetQualityConfig>, shown: ShownNumbers)
    requires
        plainly_shown(shown),
    ensures
        lacks(quality_text(tq, shown), '|'),
{
    if let Some(t) = tq {
        lemma_quality_names();
        lemma_quality_fields(t, shown);
        lemma_struct_lacks_bar("TargetQualityConfig"@, quality_fields(t, shown));
    }
    lemma_option_lacks(quality_shown(tq, shown), '|');
}

proof fn lemma_parts_lack_bars(
    args: Seq<Seq<char>>,
    opts: EncodeOptions,
    scenes: SceneDetectionConfig,
    tq: Option<TargetQualityConfig>,
    shown: ShownNumbers,
)
    requires
        plainly_shown(shown),
    ensures
        forall|k: int, i: int|
            #![trigger profile_parts(args, opts, scenes, tq, shown)[k][i]]
            1 <= k < 6 && 0 <= i < profile_parts(args, opts, scenes, tq, shown)[k].len()
                ==> profile_parts(args, opts, scenes, tq, shown)[k][i] != '|',
{
    let parts = profile_parts(args, opts, scenes, tq, shown);
    lemma_scale(opts.scale);
    lemma_crop(opts.crop, opts.crop);
    lemma_depth(opts.target_bit_depth, opts.target_bit_depth);
    lemma_scenes(scenes, scenes);
    lemma_quality_lacks_bar(tq, shown);
    assert(lacks(parts[1], '|') && lacks(parts[2], '|') && lacks(parts[3], '|') && lacks(
        parts[4],
        '|',
    ) && lacks(parts[5], '|'));
}

/// Profiles that differ in the line of their encoder options, the scale, the crop,
/// the bit depth, the scene detection or the target quality as it is shown have
/// different texts, and so do not share cached work unless their hashes collide.
pub proof fn profile_texts_tell_profiles_apart(
    args_a: Seq<Seq<char>>,
    args_b: Seq<Seq<char>>,
    a: EncodeOptions,
    b: EncodeOptions,
    scenes_a: SceneDetectionConfig,
    scenes_b: SceneDetectionConfig,
    tq_a: Option<TargetQualityConfig>,
    tq_b: Option<TargetQualityConfig>,
    shown_a: ShownNumbers,
    shown_b: ShownNumbers,
)
    requires
        plainly_shown(shown_a),
        plainly_shown(shown_b),
        profile_text(args_a, a, scenes_a, tq_a, shown_a) == profile_text(
            args_b,
            b,
            scenes_b,
            tq_b,
            shown_b,
        ),
    ensures
        joined(args_a, " "@) == joined(args_b, " "@),
        a.scale == b.scale,
        a.crop == b.crop,
        a.target_bit_depth == b.target_bit_depth,
        scenes_a == scenes_b,
        shown_alike(tq_a, tq_b, shown_a, shown_b),
{
    reveal_strlit("|");
    assert("|"@ =~= seq!['|']);
    let pa = profile_parts(args_a, a, scenes_a, tq_a, shown_a);
    let pb = profile_parts(args_b, b, scenes_b, tq_b, shown_b);
    lemma_parts_lack_bars(args_a, a, scenes_a, tq_a, shown_a);
    lemma_parts_lack_bars(args_b, b, scenes_b, tq_b, shown_b);
    lemma_parts_told(pa, pb, '|');
    assert(pa[0] == pb[0] && pa[1] == pb[1] && pa[2] == pb[2] && pa[3] == pb[3] && pa[4] == pb[4]
        && pa[5] == pb[5]);
    lemma_scale(a.scale);
    lemma_crop(a.crop, b.crop);
    lemma_depth(a.target_bit_depth, b.target_bit_depth);
    lemma_scenes(scenes_a, scenes_b);
    lemma_option_told(quality_shown(tq_a, shown_a), quality_shown(tq_b, shown_b));
    if let (Some(x), Some(y)) = (tq_a, tq_b) {
        lemma_qualities(x, y, shown_a, shown_b);
    }
}

/// A fingerprint has sixteen hexadecimal digits, decimal ones or small letters.
pub proof fn fingerprints_have_sixteen_digits(text: Seq<char>)
    ensures
        fingerprint_of(text).len() == 16,
        forall|i: int|
            0 <= i < 16 ==> is_digit(#[trigger] fingerprint_of(text)[i]) || 'a' <= fingerprint_of(
                text,
            )[i] <= 'f',
{
    let n = DefaultHasher::spec_finish(seq![vstd::utf8::encode_utf8(text), seq![0xffu8]]) as nat;
    reveal_with_fuel(crate::number::hex_range, 17);
    assert(crate::number::hex_range(16) == 0x1_0000_0000_0000_0000);
    crate::number::hex_writes_the_number(n, 16);
}

/// The text of a profile is that of its encoder options, with blanks between them, and
/// those of what else decides about the chunks, with bars between them.
pub proof fn profiles_are_shown_in_parts(
    args: Seq<Seq<char>>,
    opts: EncodeOptions,
    scenes: SceneDetectionConfig,
    tq: Option<TargetQualityConfig>,
    shown: ShownNumbers,
)
    ensures
        profile_text(args, opts, scenes, tq, shown) == joined(args, " "@) + "|"@ + scale_text(
            opts.scale,
        ) + "|"@ + crop_text(opts.crop) + "|"@ + depth_text(opts.target_bit_depth) + "|"@
            + scene_text(scenes) + "|"@ + quality_text(tq, shown),
{
    let p = profile_parts(args, opts, scenes, tq, shown);
    reveal_with_fuel(joined, 7);
    let p5 = p.drop_last();
    let p4 = p5.drop_last();
    let p3 = p4.drop_last();
    let p2 = p3.drop_last();
    let p1 = p2.drop_last();
    assert(p1.len() == 1 && p1[0] == joined(args, " "@));
    assert(p2.last() == scale_text(opts.scale));
    assert(p3.last() == crop_text(opts.crop));
    assert(p4.last() == depth_text(opts.target_bit_depth));
    assert(p5.last() == scene_text(scenes));
    assert(p.last() == quality_text(tq, shown));
    assert(joined(p1, "|"@) == joined(args, " "@));
    assert(joined(p2, "|"@) == joined(p1, "|"@) + "|"@ + p2.last());
    assert(joined(p3, "|"@) == joined(p2, "|"@) + "|"@ + p3.last());
    assert(joined(p4, "|"@) == joined(p3, "|"@) + "|"@ + p4.last());
    assert(joined(p5, "|"@) == joined(p4, "|"@) + "|"@ + p5.last());
    assert(joined(p, "|"@) == joined(p5, "|"@) + "|"@ + p.last());
}

} // verus!
