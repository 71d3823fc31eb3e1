//! The command lines that make the audio of the output and put the output
//! together, and what is shown of the plan for it.
use vstd::prelude::*;

use crate::audio::{
    codec_display, disposition_flags, display_of, Action, AudioPlan, FfprobeDisposition,
    PlannedTrack, TrackAction, TrackPlan,
};
use crate::config::{layout, layout_name};
use crate::number::{dec, dec_u64};
use crate::subtitle::{subtitle_args, subtitle_args_for, SubtitleSelection};
use crate::text::{
    contains, ends_with, from_chars, has_substring, has_suffix, lemma_sets_back, lemma_sets_front,
    opt_str, plus, push_str, push_string, quiet, sets, str_eq, to_chars, views,
};

verus! {

/// The names under which codecs mark the titles of tracks.
pub open spec fn markers() -> Seq<Seq<char>> {
    seq![
        "Opus"@,
        "FLAC"@,
        "AAC"@,
        "AC3"@,
        "E-AC-3"@,
        "MP3"@,
        "ALAC"@,
        "Vorbis"@,
    ]
}

/// A marker as it stands behind a title.
pub open spec fn tag(marker: Seq<char>) -> Seq<char> {
    " ("@ + marker + ")"@
}

/// A title without the first marker of the list that stands behind it.
pub open spec fn without_tag(title: Seq<char>, list: Seq<Seq<char>>) -> Seq<char>
    decreases list.len(),
{
    if list.len() == 0 {
        title
    } else if has_suffix(title, tag(list[0])) {
        title.take(title.len() - tag(list[0]).len())
    } else {
        without_tag(title, list.skip(1))
    }
}

/// A title without the marker of an earlier encode; nothing is left of one that
/// is only a marker.
pub open spec fn bare_title(title: Seq<char>, marker: Seq<char>) -> Seq<char> {
    let list = markers().push(marker);
    let bare = without_tag(title, list);
    if list.contains(bare) {
        Seq::empty()
    } else {
        bare
    }
}

/// The title of a track that is encoded: its own with the marker of the codec
/// behind it, or the marker alone.
pub open spec fn marked_title(title: Option<Seq<char>>, marker: Seq<char>) -> Seq<char> {
    match title {
        Some(t) if bare_title(t, marker).len() > 0 => bare_title(t, marker) + tag(marker),
        _ => marker,
    }
}

fn marker_at(i: usize, marker: &str) -> (r: &str)
    requires
        i <= 8,
    ensures
        r@ == markers().push(marker@)[i as int],
{
    let table: [&'static str; 8] = ["Opus", "FLAC", "AAC", "AC3", "E-AC-3", "MP3", "ALAC", "Vorbis"];
    if i < 8 {
        table[i]
    } else {
        marker
    }
}

fn tag_of(marker: &str) -> (r: String)
    ensures
        r@ == tag(marker@),
{
    plus(plus(" (".to_owned(), marker), ")")
}

fn strip_tag(title: &str, marker: &str) -> (r: String)
    ensures
        r@ == without_tag(title@, markers().push(marker@)),
{
    let ghost list = markers().push(marker@);
    let mut i: usize = 0;
    assert(list.skip(0) =~= list);
    while i <= 8
        invariant
            i <= 9,
            list == markers().push(marker@),
            list.len() == 9,
            without_tag(title@, list) == without_tag(title@, list.skip(i as int)),
        decreases 9 - i,
    {
        let t = tag_of(marker_at(i, marker));
        assert(list.skip(i as int)[0] == list[i as int]);
        assert(list.skip(i as int).skip(1) =~= list.skip(i + 1));
        if ends_with(title, t.as_str()) {
            let chars = to_chars(title);
            let tail: usize = to_chars(t.as_str()).len();
            let r = from_chars(&chars, 0, chars.len() - tail);
            assert(r@ =~= title@.take(title@.len() - t@.len()));
            return r;
        }
        i += 1;
    }
    title.to_owned()
}

fn is_marker(s: &str, marker: &str) -> (r: bool)
    ensures
        r == markers().push(marker@).contains(s@),
{
    let ghost list = markers().push(marker@);
    let mut i: usize = 0;
    while i <= 8
        invariant
            i <= 9,
            list == markers().push(marker@),
            list.len() == 9,
            forall|k: int| 0 <= k < i ==> #[trigger] list[k] != s@,
        decreases 9 - i,
    {
        if str_eq(marker_at(i, marker), s) {
            assert(list[i as int] == s@);
            return true;
        }
        i += 1;
    }
    false
}

/// The title of a track that is encoded with the codec that `marker` stands for.
pub fn track_title(title: Option<&str>, marker: &str) -> (r: String)
    ensures
        r@ == marked_title(opt_str(title), marker@),
{
    if let Some(t) = title {
        let bare = strip_tag(t, marker);
        if !is_marker(bare.as_str(), marker) && to_chars(bare.as_str()).len() > 0 {
            return plus(bare, tag_of(marker).as_str());
        }
    }
    marker.to_owned()
}

/// No marker holds a parenthesis.
proof fn lemma_markers_are_plain()
    ensures
        forall|k: int, i: int|
            #![trigger markers()[k][i]]
            0 <= k < 8 && 0 <= i < markers()[k].len() ==> markers()[k][i] != '(' && markers()[k][i]
                != ')',
        forall|k: int| 0 <= k < 8 ==> (#[trigger] markers()[k]).len() > 0,
{
    reveal_strlit("Opus");
    reveal_strlit("FLAC");
    reveal_strlit("AAC");
    reveal_strlit("AC3");
    reveal_strlit("E-AC-3");
    reveal_strlit("MP3");
    reveal_strlit("ALAC");
    reveal_strlit("Vorbis");
}

/// A marker that is listed already makes no difference at the end of the list.
proof fn lemma_listed_once(title: Seq<char>, list: Seq<Seq<char>>, marker: Seq<char>)
    requires
        list.contains(marker),
    ensures
        without_tag(title, list.push(marker)) == without_tag(title, list),
    decreases list.len(),
{
    let rest = list.skip(1);
    assert(list.push(marker).skip(1) =~= rest.push(marker));
    if !has_suffix(title, tag(list[0])) {
        if rest.contains(marker) {
            lemma_listed_once(title, rest, marker);
        } else {
            let k = list.index_of(marker);
            if k > 0 {
                assert(rest[k - 1] == marker);
            }
            assert(list[0] == marker);
            lemma_last_without_effect(title, rest, marker);
        }
    }
}

proof fn lemma_last_without_effect(title: Seq<char>, list: Seq<Seq<char>>, marker: Seq<char>)
    requires
        !has_suffix(title, tag(marker)),
    ensures
        without_tag(title, list.push(marker)) == without_tag(title, list),
    decreases list.len(),
{
    if list.len() == 0 {
        assert(list.push(marker)[0] == marker);
        assert(list.push(marker).skip(1) =~= list);
    } else {
        assert(list.push(marker).skip(1) =~= list.skip(1).push(marker));
        lemma_last_without_effect(title, list.skip(1), marker);
    }
}

/// Of two plain markers only the one that stands there is taken for the tag.
proof fn lemma_tag_is_unique(bare: Seq<char>, a: Seq<char>, b: Seq<char>)
    requires
        forall|i: int| 0 <= i < a.len() ==> a[i] != '(',
        forall|i: int| 0 <= i < b.len() ==> b[i] != '(',
        has_suffix(bare + tag(a), tag(b)),
    ensures
        tag(a) == tag(b),
{
    reveal_strlit(" (");
    reveal_strlit(")");
    let s = bare + tag(a);
    let ta = tag(a);
    let tb = tag(b);
    let n = s.len() as int;
    assert(s.skip(n - tb.len()) == tb);
    assert(s.skip(n - ta.len()) =~= ta);
    if tb.len() < ta.len() {
        let d = ta.len() - tb.len();
        assert(ta[d + 1] == s[n - ta.len() + d + 1]);
        assert(tb[1] == s.skip(n - tb.len())[1]);
        assert(tb[1] == '(');
        if d + 1 < 2 + a.len() {
            assert(ta[d + 1] == a[d - 1]);
        } else {
            assert(ta[d + 1] == ')');
        }
    } else if tb.len() > ta.len() {
        let d = tb.len() - ta.len();
        assert(tb[d + 1] == s.skip(n - tb.len())[d + 1]);
        assert(ta[1] == s[n - ta.len() + 1]);
        assert(ta[1] == '(');
        if d + 1 < 2 + b.len() {
            assert(tb[d + 1] == b[d - 1]);
        } else {
            assert(tb[d + 1] == ')');
        }
    }
}

/// A title that was just marked loses exactly that marker.
proof fn lemma_tag_comes_off(bare: Seq<char>, marker: Seq<char>, list: Seq<Seq<char>>)
    requires
        list.contains(marker),
        forall|k: int, i: int|
            #![trigger list[k][i]]
            0 <= k < list.len() && 0 <= i < list[k].len() ==> list[k][i] != '(',
    ensures
        without_tag(bare + tag(marker), list) == bare,
    decreases list.len(),
{
    let s = bare + tag(marker);
    let m = list.index_of(marker);
    assert forall|i: int| 0 <= i < marker.len() implies marker[i] != '(' by {
        assert(list[m][i] != '(');
    }
    assert forall|i: int| 0 <= i < list[0].len() implies list[0][i] != '(' by {
        assert(list[0][i] != '(');
    }
    if has_suffix(s, tag(list[0])) {
        lemma_tag_is_unique(bare, marker, list[0]);
        assert(s.take(s.len() - tag(marker).len()) =~= bare);
    } else {
        let rest = list.skip(1);
        if list[0] == marker {
            assert(s.skip(s.len() - tag(marker).len()) =~= tag(marker));
            assert(has_suffix(s, tag(marker)));
        }
        assert(m > 0);
        assert(rest[m - 1] == marker);
        assert forall|k: int, i: int|
            #![trigger rest[k][i]]
            0 <= k < rest.len() && 0 <= i < rest[k].len() implies rest[k][i] != '(' by {
            assert(rest[k] == list[k + 1]);
            assert(list[k + 1][i] != '(');
        }
        lemma_tag_comes_off(bare, marker, rest);
    }
}

/// A title without a parenthesis at its end has no tag.
proof fn lemma_no_tag(title: Seq<char>, list: Seq<Seq<char>>)
    requires
        title.len() == 0 || title.last() != ')',
    ensures
        without_tag(title, list) == title,
    decreases list.len(),
{
    reveal_strlit(" (");
    reveal_strlit(")");
    if list.len() > 0 {
        let t = tag(list[0]);
        if has_suffix(title, t) {
            assert(title.skip(title.len() - t.len()) == t);
            assert(title.skip(title.len() - t.len()).last() == title.last());
            assert(t.last() == ')');
        }
        lemma_no_tag(title, list.skip(1));
    }
}

/// A marker without parentheses, as the names of codecs are.
pub open spec fn plain(marker: Seq<char>) -> bool {
    forall|i: int| 0 <= i < marker.len() ==> marker[i] != '(' && marker[i] != ')'
}

/// Markers do not stack: when a track is encoded a second time its title is
/// what it would be had it been encoded only that time. The first codec has to be
/// the second one or one of those with a name of their own, since nothing tells the
/// marker of another from the rest of a title; and where the second is not one of
/// these, the title must not have carried its marker before the first.
pub proof fn markers_do_not_stack(title: Option<Seq<char>>, first: Seq<char>, second: Seq<char>)
    requires
        plain(first) && plain(second),
        first == second || markers().contains(first),
        first == second || markers().contains(second) || (title matches Some(t) ==> !has_suffix(
            t,
            tag(second),
        )),
    ensures
        marked_title(Some(marked_title(title, first)), second) == marked_title(title, second),
{
    let list = markers();
    let all = list.push(second);
    let once = marked_title(title, first);
    lemma_markers_are_plain();
    lemma_plain_list(second);
    assert(all.contains(first)) by {
        if first == second {
            assert(all[8] == first);
        } else {
            let k = list.index_of(first);
            assert(all[k] == first);
        }
    }
    lemma_no_tag(first, all);
    assert(bare_title(first, second) == Seq::<char>::empty());
    assert(marked_title(Some(first), second) == second);
    if let Some(t) = title {
        let w = without_tag(t, list.push(first));
        if first != second {
            lemma_listed_once(t, list, first);
            lemma_pushed_members(list, first);
            if list.contains(second) {
                lemma_listed_once(t, list, second);
            } else {
                lemma_last_without_effect(t, list, second);
            }
            assert(w == without_tag(t, all));
        }
        lemma_second_marker(w, second);
        let bare = bare_title(t, first);
        if bare.len() > 0 {
            assert(bare == w && once == bare + tag(first));
            lemma_tag_comes_off(bare, first, all);
            assert(without_tag(once, all) == w);
            assert(bare_title(once, second) == bare_title(t, second));
        } else {
            assert(once == first);
            assert(w.len() == 0 || all.contains(w));
            assert(bare_title(t, second).len() == 0);
        }
    }
}

/// What is left of a title is dropped exactly when it is one of the markers.
proof fn lemma_second_marker(bare: Seq<char>, second: Seq<char>)
    ensures
        markers().push(second).contains(bare) <==> markers().contains(bare) || bare == second,
{
    let list = markers();
    let all = list.push(second);
    assert(all[8] == second);
    if list.contains(bare) {
        let k = list.index_of(bare);
        assert(all[k] == bare);
    }
    if all.contains(bare) {
        let k = all.index_of(bare);
        if k < 8 {
            assert(list[k] == bare);
        }
    }
}

proof fn lemma_plain_list(marker: Seq<char>)
    requires
        plain(marker),
    ensures
        forall|k: int, i: int|
            #![trigger markers().push(marker)[k][i]]
            0 <= k < 9 && 0 <= i < markers().push(marker)[k].len() ==> markers().push(
                marker,
            )[k][i] != '(',
{
    let all = markers().push(marker);
    lemma_markers_are_plain();
    assert forall|k: int, i: int| #![trigger all[k][i]]
        0 <= k < 9 && 0 <= i < all[k].len() implies all[k][i] != '(' by {
        if k < 8 {
            assert(all[k] == markers()[k]);
            assert(markers()[k][i] != '(');
        }
    }
}

proof fn lemma_pushed_members(list: Seq<Seq<char>>, marker: Seq<char>)
    requires
        list.contains(marker),
    ensures
        forall|s: Seq<char>| list.push(marker).contains(s) <==> list.contains(s),
{
    assert forall|s: Seq<char>| list.push(marker).contains(s) <==> list.contains(s) by {
        if list.contains(s) {
            let k = list.index_of(s);
            assert(list.push(marker)[k] == s);
        }
        if list.push(marker).contains(s) {
            let k = list.push(marker).index_of(s);
            if k < list.len() {
                assert(list[k] == s);
            }
        }
    }
}

/// An option of ffmpeg for the audio track of the output with the given number.
pub open spec fn track_option(name: Seq<char>, out_idx: nat) -> Seq<char> {
    "-"@ + name + ":a:"@ + dec(out_idx)
}

/// The arguments for the first `n` options of a list.
pub open spec fn option_args(
    options: Seq<(Seq<char>, Seq<char>)>,
    out_idx: nat,
    n: nat,
) -> Seq<Seq<char>>
    decreases n,
{
    if n == 0 {
        Seq::empty()
    } else {
        option_args(options, out_idx, (n - 1) as nat) + seq![
            track_option(options[n - 1].0, out_idx),
            options[n - 1].1,
        ]
    }
}

/// The layouts that the Opus encoder takes; a layout with other names for its
/// channels is mapped to the one of these with as many.
pub open spec fn opus_layouts() -> Seq<char> {
    "aformat=channel_layouts=7.1|6.1|5.1|5.0|quad|3.0|stereo|mono"@
}

/// The arguments that say how a track of the output is made.
pub open spec fn track_args(track: TrackPlan, out_idx: nat) -> Seq<Seq<char>> {
    match track.action {
        TrackAction::Copy => seq![track_option("c"@, out_idx), "copy"@],
        TrackAction::Encode { codec, bitrate, options } => {
            (if has_substring(codec, "opus"@) {
                seq![track_option("filter"@, out_idx), opus_layouts()]
            } else {
                Seq::empty()
            }) + seq![track_option("c"@, out_idx), codec] + (match bitrate {
                Some(b) => seq![track_option("b"@, out_idx), b],
                None => Seq::empty(),
            }) + option_args(options, out_idx, options.len()) + seq![
                "-metadata:s:a:"@ + dec(out_idx),
                "title="@ + marked_title(track.title, display_of(codec)),
            ]
        },
    }
}

/// The arguments that pick the first `n` tracks of the plan from the source.
pub open spec fn map_args(plan: Seq<TrackPlan>, n: nat) -> Seq<Seq<char>>
    decreases n,
{
    if n == 0 {
        Seq::empty()
    } else {
        map_args(plan, (n - 1) as nat) + seq!["-map"@, "0:a:"@ + dec(plan[n - 1].audio_index)]
    }
}

/// The arguments for the first `n` tracks of the plan.
pub open spec fn tracks_args(plan: Seq<TrackPlan>, n: nat) -> Seq<Seq<char>>
    decreases n,
{
    if n == 0 {
        Seq::empty()
    } else {
        tracks_args(plan, (n - 1) as nat) + track_args(plan[n - 1], (n - 1) as nat)
    }
}

/// The arguments with which ffmpeg makes the audio of the output.
pub open spec fn audio_args_for(
    source: Seq<char>,
    audio_path: Seq<char>,
    plan: Seq<TrackPlan>,
) -> Seq<Seq<char>> {
    seq!["-hide_banner"@, "-loglevel"@, "error"@, "-y"@, "-i"@, source, "-vn"@, "-sn"@] + map_args(
        plan,
        plan.len(),
    ) + tracks_args(plan, plan.len()) + seq![audio_path]
}

fn option_name(name: &str, out_idx: usize) -> (r: String)
    ensures
        r@ == track_option(name@, out_idx as nat),
{
    let r = plus("-".to_owned(), name);
    plus(plus(r, ":a:"), dec_u64(out_idx as u64).as_str())
}

fn push_track_args(args: &mut Vec<String>, track: &PlannedTrack, out_idx: usize)
    ensures
        views(final(args)@) == views(old(args)@) + track_args(track@, out_idx as nat),
{
    let ghost start = views(args@);
    let ghost idx = out_idx as nat;
    match &track.action {
        Action::Copy => {
            push_string(args, option_name("c", out_idx));
            push_str(args, "copy");
            assert(views(args@) =~= start + track_args(track@, idx));
        },
        Action::Encode { codec, bitrate, options } => {
            let ghost pairs = crate::audio::pairs_view(options@);
            if contains(codec.as_str(), "opus") {
                push_string(args, option_name("filter", out_idx));
                push_str(args, "aformat=channel_layouts=7.1|6.1|5.1|5.0|quad|3.0|stereo|mono");
            }
            push_string(args, option_name("c", out_idx));
            push_str(args, codec.as_str());
            if let Some(b) = bitrate {
                push_string(args, option_name("b", out_idx));
                push_str(args, b.as_str());
            }
            let ghost head = views(args@);
            let mut i: usize = 0;
            assert(head + option_args(pairs, idx, 0) =~= head);
            while i < options.len()
                invariant
                    i <= options@.len(),
                    idx == out_idx,
                    pairs == crate::audio::pairs_view(options@),
                    views(args@) == head + option_args(pairs, idx, i as nat),
                decreases options@.len() - i,
            {
                let ghost before = views(args@);
                push_string(args, option_name(options[i].0.as_str(), out_idx));
                push_str(args, options[i].1.as_str());
                assert(pairs[i as int] == (options@[i as int].0@, options@[i as int].1@));
                i += 1;
                assert(views(args@) =~= head + option_args(pairs, idx, i as nat));
            }
            let title = track_title(
                crate::text::as_opt_str(&track.title),
                codec_display(codec.as_str()),
            );
            push_string(
                args,
                plus("-metadata:s:a:".to_owned(), dec_u64(out_idx as u64).as_str()),
            );
            push_string(args, plus("title=".to_owned(), title.as_str()));
            assert(views(args@) =~= start + track_args(track@, idx));
        },
    }
}

impl AudioPlan {
    /// The arguments with which ffmpeg makes the audio of the output.
    pub fn audio_args(&self, source: &str, audio_path: &str) -> (r: Vec<String>)
        ensures
            views(r@) == audio_args_for(source@, audio_path@, self@),
    {
        let ghost plan = self@;
        let count: usize = self.tracks.len();
        let mut args: Vec<String> = Vec::new();
        push_str(&mut args, "-hide_banner");
        push_str(&mut args, "-loglevel");
        push_str(&mut args, "error");
        push_str(&mut args, "-y");
        push_str(&mut args, "-i");
        push_str(&mut args, source);
        push_str(&mut args, "-vn");
        push_str(&mut args, "-sn");
        let ghost head = views(args@);
        assert(head =~= seq![
            "-hide_banner"@,
            "-loglevel"@,
            "error"@,
            "-y"@,
            "-i"@,
            source@,
            "-vn"@,
            "-sn"@,
        ]);
        let mut i: usize = 0;
        assert(head + map_args(plan, 0) =~= head);
        while i < count
            invariant
                i <= count,
                count == self.tracks@.len(),
                plan == self@,
                views(args@) == head + map_args(plan, i as nat),
            decreases count - i,
        {
            push_str(&mut args, "-map");
            push_string(
                &mut args,
                plus("0:a:".to_owned(), dec_u64(self.tracks[i].audio_index as u64).as_str()),
            );
            assert(plan[i as int] == self.tracks@[i as int]@);
            i += 1;
            assert(views(args@) =~= head + map_args(plan, i as nat));
        }
        let ghost mapped = views(args@);
        let mut k: usize = 0;
        assert(mapped + tracks_args(plan, 0) =~= mapped);
        while k < count
            invariant
                k <= count,
                count == self.tracks@.len(),
                plan == self@,
                views(args@) == mapped + tracks_args(plan, k as nat),
            decreases count - k,
        {
            push_track_args(&mut args, &self.tracks[k], k);
            assert(plan[k as int] == self.tracks@[k as int]@);
            k += 1;
            assert(views(args@) =~= mapped + tracks_args(plan, k as nat));
        }
        push_str(&mut args, audio_path);
        assert(views(args@) =~= audio_args_for(source@, audio_path@, plan));
        args
    }

    /// A line for each track: what it is and what becomes of it.
    pub fn summary_lines(&self) -> (r: Vec<String>)
        ensures
            views(r@) == summary_of(self@),
    {
        let mut lines: Vec<String> = Vec::new();
        if self.tracks.len() == 0 {
            push_str(&mut lines, "no audio tracks");
            assert(views(lines@) =~= summary_of(self@));
            return lines;
        }
        let ghost plan = self@;
        let mut i: usize = 0;
        while i < self.tracks.len()
            invariant
                i <= self.tracks@.len(),
                plan == self@,
                views(lines@) == Seq::new(i as nat, |k: int| summary_line(plan[k], k as nat)),
            decreases self.tracks@.len() - i,
        {
            let line = summarize(&self.tracks[i], i);
            assert(plan[i as int] == self.tracks@[i as int]@);
            push_string(&mut lines, line);
            i += 1;
            assert(views(lines@) =~= Seq::new(i as nat, |k: int| summary_line(plan[k], k as nat)));
        }
        assert(views(lines@) =~= summary_of(self@));
        lines
    }
}

/// What becomes of a track, in words.
pub open spec fn action_text(action: TrackAction) -> Seq<char> {
    match action {
        TrackAction::Copy => "copy"@,
        TrackAction::Encode { codec, bitrate, options: _ } => match bitrate {
            Some(b) => display_of(codec) + " "@ + b,
            None => display_of(codec),
        },
    }
}

/// The line that is shown for a track of the plan.
pub open spec fn summary_line(track: TrackPlan, i: nat) -> Seq<char> {
    "track "@ + dec(i) + ": "@ + (match track.language {
        Some(language) => language,
        None => "und"@,
    }) + " "@ + track.codec + " "@ + (match track.channels {
        Some(c) => layout(c as nat),
        None => "?"@,
    }) + " ("@ + (if track.lossless {
        "lossless"@
    } else {
        "lossy"@
    }) + ") -> "@ + action_text(track.action)
}

pub open spec fn summary_of(plan: Seq<TrackPlan>) -> Seq<Seq<char>> {
    if plan.len() == 0 {
        seq!["no audio tracks"@]
    } else {
        Seq::new(plan.len(), |i: int| summary_line(plan[i], i as nat))
    }
}

fn summarize(track: &PlannedTrack, i: usize) -> (r: String)
    ensures
        r@ == summary_line(track@, i as nat),
{
    let language = match &track.language {
        Some(language) => language.as_str(),
        None => "und",
    };
    let layout = match track.channels {
        Some(c) => layout_name(c),
        None => "?",
    };
    let kind = if track.lossless {
        "lossless"
    } else {
        "lossy"
    };
    let action = match &track.action {
        Action::Copy => "copy".to_owned(),
        Action::Encode { codec, bitrate, options: _ } => match bitrate {
            Some(b) => plus(plus(codec_display(codec.as_str()).to_owned(), " "), b.as_str()),
            None => codec_display(codec.as_str()).to_owned(),
        },
    };
    let r = plus("track ".to_owned(), dec_u64(i as u64).as_str());
    let r = plus(plus(r, ": "), language);
    let r = plus(plus(r, " "), track.codec_name.as_str());
    let r = plus(plus(r, " "), layout);
    let r = plus(plus(r, " ("), kind);
    plus(plus(r, ") -> "), action.as_str())
}

/// The arguments that keep nothing of a file but its video.
pub open spec fn video_only_args() -> Seq<Seq<char>> {
    seq![
        "--no-audio"@,
        "--no-subtitles"@,
        "--no-chapters"@,
        "--no-global-tags"@,
        "--no-track-tags"@,
    ]
}

/// The arguments that keep nothing of a file but its audio.
pub open spec fn audio_only_args() -> Seq<Seq<char>> {
    seq![
        "--no-video"@,
        "--no-subtitles"@,
        "--no-chapters"@,
        "--no-global-tags"@,
        "--no-track-tags"@,
    ]
}

/// The arguments with which mkvmerge puts the output together: the video, with
/// what the source says of it; the audio, where there is any; and from the
/// source the subtitles that are kept and the chapters.
pub open spec fn mux_args_for(
    output: Seq<char>,
    video: Seq<char>,
    disposition: Option<FfprobeDisposition>,
    audio: Option<Seq<char>>,
    source: Seq<char>,
    subtitles: Seq<Seq<char>>,
) -> Seq<Seq<char>> {
    seq!["-o"@, output] + (match disposition {
        Some(d) => disposition_flags(d, 0),
        None => Seq::empty(),
    }) + video_only_args() + seq![video] + (match audio {
        Some(audio) => audio_only_args() + seq![audio],
        None => Seq::empty(),
    }) + seq!["--no-video"@, "--no-audio"@, "--no-global-tags"@, "--no-track-tags"@] + subtitles
        + seq![source]
}

#[verifier::spinoff_prover]
#[verifier::rlimit(30)]
pub fn mux_args(
    output: &str,
    video: &str,
    disposition: Option<FfprobeDisposition>,
    audio: Option<&str>,
    source: &str,
    selection: &SubtitleSelection,
    subtitle_ids: &[u64],
) -> (r: Vec<String>)
    ensures
        views(r@) == mux_args_for(
            output@,
            video@,
            disposition,
            opt_str(audio),
            source@,
            subtitle_args_for(selection@, subtitle_ids@),
        ),
{
    let mut args: Vec<String> = Vec::new();
    push_str(&mut args, "-o");
    push_str(&mut args, output);
    assert(views(args@) =~= seq!["-o"@, output@]);
    if let Some(d) = disposition {
        let mut flags = d.to_mkvmerge_flags(0);
        append_args(&mut args, &mut flags);
    }
    let ghost with_flags = views(args@);
    push_str(&mut args, "--no-audio");
    push_str(&mut args, "--no-subtitles");
    push_str(&mut args, "--no-chapters");
    push_str(&mut args, "--no-global-tags");
    push_str(&mut args, "--no-track-tags");
    push_str(&mut args, video);
    assert(views(args@) =~= with_flags + video_only_args() + seq![video@]);
    let ghost with_video = views(args@);
    if let Some(audio) = audio {
        push_str(&mut args, "--no-video");
        push_str(&mut args, "--no-subtitles");
        push_str(&mut args, "--no-chapters");
        push_str(&mut args, "--no-global-tags");
        push_str(&mut args, "--no-track-tags");
        push_str(&mut args, audio);
        assert(views(args@) =~= with_video + (audio_only_args() + seq![audio@]));
    }
    let ghost with_audio = views(args@);
    push_str(&mut args, "--no-video");
    push_str(&mut args, "--no-audio");
    push_str(&mut args, "--no-global-tags");
    push_str(&mut args, "--no-track-tags");
    assert(views(args@) =~= with_audio + seq![
        "--no-video"@,
        "--no-audio"@,
        "--no-global-tags"@,
        "--no-track-tags"@,
    ]);
    let mut subtitles = subtitle_args(selection, subtitle_ids);
    append_args(&mut args, &mut subtitles);
    push_str(&mut args, source);
    assert(views(args@) =~= mux_args_for(
        output@,
        video@,
        disposition,
        opt_str(audio),
        source@,
        subtitle_args_for(selection@, subtitle_ids@),
    ));
    args
}

fn append_args(args: &mut Vec<String>, more: &mut Vec<String>)
    ensures
        views(final(args)@) == views(old(args)@) + views(old(more)@),
{
    let ghost a = args@;
    let ghost b = more@;
    args.append(more);
    assert(views(args@) =~= views(a) + views(b));
}

/// True when mkvmerge failed, by the code with which it ended: one is for mere
/// warnings, and none means that it was killed.
pub fn mkvmerge_failed(code: Option<i32>) -> (r: bool)
    ensures
        r == (code is None || code.unwrap() >= 2),
{
    match code {
        Some(c) => c >= 2,
        None => true,
    }
}

/// The arguments that pick tracks from the source come in pairs, one for each track
/// of the plan, in the order of the plan.
proof fn lemma_map_args(plan: Seq<TrackPlan>, n: nat, i: int)
    requires
        n <= plan.len(),
        0 <= i < n,
    ensures
        map_args(plan, n).len() == 2 * n,
        map_args(plan, n)[2 * i] == "-map"@,
        map_args(plan, n)[2 * i + 1] == "0:a:"@ + dec(plan[i].audio_index),
    decreases n,
{
    lemma_map_length(plan, n);
    lemma_map_length(plan, (n - 1) as nat);
    if i < n - 1 {
        lemma_map_args(plan, (n - 1) as nat, i);
    }
}

proof fn lemma_map_length(plan: Seq<TrackPlan>, n: nat)
    ensures
        map_args(plan, n).len() == 2 * n,
    decreases n,
{
    if n > 0 {
        lemma_map_length(plan, (n - 1) as nat);
    }
}

/// The audio of the output is made from the source alone, without its video and its
/// subtitles, and each track of the plan is picked from the source by its own number:
/// the first of the plan first.
pub proof fn planned_tracks_are_picked_in_order(
    source: Seq<char>,
    audio_path: Seq<char>,
    plan: Seq<TrackPlan>,
    i: int,
)
    requires
        0 <= i < plan.len(),
    ensures
        ({
            let args = audio_args_for(source, audio_path, plan);
            &&& args[4] == "-i"@ && args[5] == source && args[6] == "-vn"@ && args[7] == "-sn"@
            &&& args[8 + 2 * i] == "-map"@
            &&& args[9 + 2 * i] == "0:a:"@ + dec(plan[i].audio_index)
            &&& args.last() == audio_path
            &&& args.len() == 9 + 2 * plan.len() + tracks_args(plan, plan.len()).len()
        }),
{
    lemma_map_args(plan, plan.len(), i);
    let maps = map_args(plan, plan.len());
    let args = audio_args_for(source, audio_path, plan);
    assert(args[8 + 2 * i] == maps[2 * i]);
    assert(args[9 + 2 * i] == maps[2 * i + 1]);
}

proof fn lemma_track_reaches(
    plan: Seq<TrackPlan>,
    n: nat,
    i: int,
    flag: Seq<char>,
    value: Seq<char>,
)
    requires
        0 <= i < n <= plan.len(),
        sets(track_args(plan[i], i as nat), flag, value),
    ensures
        sets(tracks_args(plan, n), flag, value),
    decreases n,
{
    if i == n - 1 {
        lemma_sets_back(tracks_args(plan, (n - 1) as nat), track_args(plan[i], i as nat), flag, value);
    } else {
        lemma_track_reaches(plan, (n - 1) as nat, i, flag, value);
        lemma_sets_front(
            tracks_args(plan, (n - 1) as nat),
            track_args(plan[n - 1], (n - 1) as nat),
            flag,
            value,
        );
    }
}

/// How the track with number `i` of the output is made reaches ffmpeg: a copied track
/// is copied, and one that is encoded is encoded with its codec, its bitrate and its
/// options, under the title that its codec gives it.
pub proof fn tracks_are_made_as_planned(
    source: Seq<char>,
    audio_path: Seq<char>,
    plan: Seq<TrackPlan>,
    i: int,
)
    requires
        0 <= i < plan.len(),
    ensures
        ({
            let args = audio_args_for(source, audio_path, plan);
            let codec_flag = "-"@ + "c"@ + ":a:"@ + dec(i as nat);
            match plan[i].action {
                TrackAction::Copy => sets(args, codec_flag, "copy"@),
                TrackAction::Encode { codec, bitrate, options } => {
                    &&& sets(args, codec_flag, codec)
                    &&& bitrate matches Some(b) ==> sets(
                        args,
                        "-"@ + "b"@ + ":a:"@ + dec(i as nat),
                        b,
                    )
                    &&& has_substring(codec, "opus"@) ==> sets(
                        args,
                        "-"@ + "filter"@ + ":a:"@ + dec(i as nat),
                        "aformat=channel_layouts=7.1|6.1|5.1|5.0|quad|3.0|stereo|mono"@,
                    )
                    &&& forall|k: int|
                        0 <= k < options.len() ==> sets(
                            args,
                            "-"@ + (#[trigger] options[k]).0 + ":a:"@ + dec(i as nat),
                            options[k].1,
                        )
                    &&& sets(
                        args,
                        "-metadata:s:a:"@ + dec(i as nat),
                        "title="@ + marked_title(plan[i].title, display_of(codec)),
                    )
                },
            }
        }),
{
    let n = i as nat;
    let own = track_args(plan[i], n);
    let all = tracks_args(plan, plan.len());
    let front = seq!["-hide_banner"@, "-loglevel"@, "error"@, "-y"@, "-i"@, source, "-vn"@, "-sn"@]
        + map_args(plan, plan.len());
    let args = audio_args_for(source, audio_path, plan);
    assert(args == front + all + seq![audio_path]);
    assert forall|flag: Seq<char>, value: Seq<char>| #[trigger]
        sets(own, flag, value) implies sets(args, flag, value) by {
        lemma_track_reaches(plan, plan.len(), i, flag, value);
        lemma_sets_back(front, all, flag, value);
        lemma_sets_front(front + all, seq![audio_path], flag, value);
    }
    match plan[i].action {
        TrackAction::Copy => {
            assert(own[0] == track_option("c"@, n) && own[0int + 1] == "copy"@);
            assert(sets(own, track_option("c"@, n), "copy"@));
        },
        TrackAction::Encode { codec, bitrate, options } => {
            let a = if has_substring(codec, "opus"@) {
                seq![track_option("filter"@, n), opus_layouts()]
            } else {
                Seq::empty()
            };
            let b = seq![track_option("c"@, n), codec];
            let c = match bitrate {
                Some(b) => seq![track_option("b"@, n), b],
                None => Seq::empty(),
            };
            let d = option_args(options, n, options.len());
            let title = "title="@ + marked_title(plan[i].title, display_of(codec));
            let e = seq!["-metadata:s:a:"@ + dec(n), title];
            assert(own == a + b + c + d + e);
            lemma_pair_is_set(track_option("c"@, n), codec);
            lemma_sets_back(a, b, track_option("c"@, n), codec);
            lemma_sets_front(a + b, c, track_option("c"@, n), codec);
            lemma_sets_front(a + b + c, d, track_option("c"@, n), codec);
            lemma_sets_front(a + b + c + d, e, track_option("c"@, n), codec);
            assert(sets(own, track_option("c"@, n), codec));
            if let Some(rate) = bitrate {
                lemma_pair_is_set(track_option("b"@, n), rate);
                lemma_sets_back(a + b, c, track_option("b"@, n), rate);
                lemma_sets_front(a + b + c, d, track_option("b"@, n), rate);
                lemma_sets_front(a + b + c + d, e, track_option("b"@, n), rate);
                assert(sets(own, track_option("b"@, n), rate));
            }
            if has_substring(codec, "opus"@) {
                lemma_pair_is_set(track_option("filter"@, n), opus_layouts());
                lemma_sets_front(a, b, track_option("filter"@, n), opus_layouts());
                lemma_sets_front(a + b, c, track_option("filter"@, n), opus_layouts());
                lemma_sets_front(a + b + c, d, track_option("filter"@, n), opus_layouts());
                lemma_sets_front(a + b + c + d, e, track_option("filter"@, n), opus_layouts());
                assert(sets(own, track_option("filter"@, n), opus_layouts()));
            }
            assert forall|k: int| 0 <= k < options.len() implies sets(
                args,
                "-"@ + (#[trigger] options[k]).0 + ":a:"@ + dec(n),
                options[k].1,
            ) by {
                let flag = track_option(options[k].0, n);
                lemma_option_is_set(options, n, options.len(), k);
                lemma_sets_back(a + b + c, d, flag, options[k].1);
                lemma_sets_front(a + b + c + d, e, flag, options[k].1);
                assert(sets(own, flag, options[k].1));
            }
            lemma_pair_is_set("-metadata:s:a:"@ + dec(n), title);
            lemma_sets_back(a + b + c + d, e, "-metadata:s:a:"@ + dec(n), title);
            assert(sets(own, "-metadata:s:a:"@ + dec(n), title));
        },
    }
}

proof fn lemma_pair_is_set(flag: Seq<char>, value: Seq<char>)
    ensures
        sets(seq![flag, value], flag, value),
{
    let pair = seq![flag, value];
    assert(pair[0] == flag && pair[0int + 1] == value);
}

proof fn lemma_option_is_set(
    options: Seq<(Seq<char>, Seq<char>)>,
    out_idx: nat,
    n: nat,
    k: int,
)
    requires
        0 <= k < n <= options.len(),
    ensures
        sets(
            option_args(options, out_idx, n),
            track_option(options[k].0, out_idx),
            options[k].1,
        ),
    decreases n,
{
    let flag = track_option(options[k].0, out_idx);
    let before = option_args(options, out_idx, (n - 1) as nat);
    let pair = seq![track_option(options[n - 1].0, out_idx), options[n - 1].1];
    if k == n - 1 {
        lemma_pair_is_set(flag, options[k].1);
        lemma_sets_back(before, pair, flag, options[k].1);
    } else {
        lemma_option_is_set(options, out_idx, (n - 1) as nat, k);
        lemma_sets_front(before, pair, flag, options[k].1);
    }
}

/// A track that is copied gets nothing but the order to copy it, and one that is
/// encoded nothing beyond its codec, its bitrate, its options, its title and, for
/// Opus, the layouts.
pub proof fn nothing_else_is_asked_for_a_track(track: TrackPlan, i: nat)
    ensures
        match track.action {
            TrackAction::Copy => track_args(track, i).len() == 2,
            TrackAction::Encode { codec, bitrate, options } => track_args(track, i).len() == 4 + 2
                * options.len() + (if bitrate is Some {
                2int
            } else {
                0
            }) + (if has_substring(codec, "opus"@) {
                2int
            } else {
                0
            }),
        },
{
    if let TrackAction::Encode { codec, bitrate, options } = track.action {
        lemma_option_length(options, i, options.len());
    }
}

proof fn lemma_option_length(options: Seq<(Seq<char>, Seq<char>)>, i: nat, n: nat)
    ensures
        option_args(options, i, n).len() == 2 * n,
    decreases n,
{
    if n > 0 {
        lemma_option_length(options, i, (n - 1) as nat);
    }
}

/// A track without a title is named by its marker, and a title that is neither a
/// marker nor ends in a parenthesis is kept whole, with the marker behind it.
pub proof fn titles_are_kept(title: Seq<char>, marker: Seq<char>)
    requires
        title.len() > 0,
        title.last() != ')',
        title != marker,
        !markers().contains(title),
    ensures
        marked_title(None, marker) == marker,
        marked_title(Some(title), marker) == title + " ("@ + marker + ")"@,
{
    let list = markers().push(marker);
    lemma_no_tag(title, list);
    lemma_second_marker(title, marker);
    assert(bare_title(title, marker) == title);
    assert(title + tag(marker) =~= title + " ("@ + marker + ")"@);
}

/// The output is put together from the video, the audio and the rest of the source:
/// of the video file only the video is taken, of the audio file only the audio, and
/// of the source neither, but its chapters and the subtitles that are kept.
pub proof fn outputs_are_put_together_from_their_parts(
    output: Seq<char>,
    video: Seq<char>,
    disposition: Option<FfprobeDisposition>,
    audio: Option<Seq<char>>,
    source: Seq<char>,
    subtitles: Seq<Seq<char>>,
)
    ensures
        ({
            let args = mux_args_for(output, video, disposition, audio, source, subtitles);
            let flags = match disposition {
                Some(d) => disposition_flags(d, 0),
                None => Seq::empty(),
            };
            let v = 7 + flags.len() as int;
            let s = args.len() - 1;
            let t = s - subtitles.len() - 4;
            &&& args[0] == "-o"@ && args[1] == output
            &&& args.subrange(2, 2 + flags.len() as int) == flags
            &&& args[v - 5] == "--no-audio"@ && args[v - 4] == "--no-subtitles"@ && args[v - 3]
                == "--no-chapters"@ && args[v - 2] == "--no-global-tags"@ && args[v - 1]
                == "--no-track-tags"@ && args[v] == video
            &&& match audio {
                Some(a) => args[v + 1] == "--no-video"@ && args[v + 2] == "--no-subtitles"@
                    && args[v + 3] == "--no-chapters"@ && args[v + 4] == "--no-global-tags"@
                    && args[v + 5] == "--no-track-tags"@ && args[v + 6] == a && t == v + 7,
                None => t == v + 1,
            }
            &&& args[t] == "--no-video"@ && args[t + 1] == "--no-audio"@ && args[t + 2]
                == "--no-global-tags"@ && args[t + 3] == "--no-track-tags"@
            &&& args.subrange(t + 4, s) == subtitles
            &&& args[s] == source
        }),
{
    let args = mux_args_for(output, video, disposition, audio, source, subtitles);
    let flags = match disposition {
        Some(d) => disposition_flags(d, 0),
        None => Seq::empty(),
    };
    let middle = match audio {
        Some(a) => audio_only_args() + seq![a],
        None => Seq::empty(),
    };
    let tail = seq!["--no-video"@, "--no-audio"@, "--no-global-tags"@, "--no-track-tags"@];
    assert(args =~= seq!["-o"@, output] + flags + video_only_args() + seq![video] + middle + tail
        + subtitles + seq![source]);
    let s = args.len() - 1;
    let t = s - subtitles.len() - 4;
    assert(args.subrange(2, 2 + flags.len() as int) =~= flags);
    assert(args.subrange(t + 4, s) =~= subtitles);
}

/// The names of codecs that are taken for markers are these, and no others.
pub proof fn markers_are_names_of_codecs(name: Seq<char>)
    ensures
        markers().contains(name) <==> {
            ||| name == "Opus"@
            ||| name == "FLAC"@
            ||| name == "AAC"@
            ||| name == "AC3"@
            ||| name == "E-AC-3"@
            ||| name == "MP3"@
            ||| name == "ALAC"@
            ||| name == "Vorbis"@
        },
{
    let list = markers();
    assert(list[0] == "Opus"@);
    assert(list[1] == "FLAC"@);
    assert(list[2] == "AAC"@);
    assert(list[3] == "AC3"@);
    assert(list[4] == "E-AC-3"@);
    assert(list[5] == "MP3"@);
    assert(list[6] == "ALAC"@);
    assert(list[7] == "Vorbis"@);
}

/// A title that carries the marker of an earlier encode gets the new marker in its
/// place.
pub proof fn old_markers_are_replaced(title: Seq<char>, old_name: Seq<char>, name: Seq<char>)
    requires
        title.len() > 0,
        markers().contains(old_name),
        plain(name),
        title != name,
        !markers().contains(title),
    ensures
        marked_title(Some(title + " ("@ + old_name + ")"@), name) == title + " ("@ + name + ")"@,
{
    let list = markers().push(name);
    lemma_markers_are_plain();
    lemma_plain_list(name);
    let k = choose|k: int| 0 <= k < markers().len() && markers()[k] == old_name;
    assert(list[k] == old_name);
    assert(title + " ("@ + old_name + ")"@ =~= title + tag(old_name));
    lemma_tag_comes_off(title, old_name, list);
    lemma_second_marker(title, name);
    assert(title + " ("@ + name + ")"@ =~= title + tag(name));
}

/// A line for each track says what it is and what becomes of it; without tracks there is
/// one line that says so.
pub proof fn summaries_tell_every_track(plan: Seq<TrackPlan>, i: int)
    requires
        0 <= i < plan.len(),
    ensures
        summary_of(plan).len() == plan.len(),
        ({
            let t = plan[i];
            let language = match t.language {
                Some(l) => l,
                None => "und"@,
            };
            let channels = match t.channels {
                Some(c) => layout(c as nat),
                None => "?"@,
            };
            let kind = if t.lossless {
                "lossless"@
            } else {
                "lossy"@
            };
            let made = match t.action {
                TrackAction::Copy => "copy"@,
                TrackAction::Encode { codec, bitrate: Some(b), options: _ } => display_of(codec)
                    + " "@ + b,
                TrackAction::Encode { codec, bitrate: None, options: _ } => display_of(codec),
            };
            summary_of(plan)[i] == "track "@ + dec(i as nat) + ": "@ + language + " "@ + t.codec
                + " "@ + channels + " ("@ + kind + ") -> "@ + made
        }),
        summary_of(Seq::empty()) == seq!["no audio tracks"@],
{
}

/// Warnings do not fail the output; errors do, and so does a tool that was killed.
pub proof fn warnings_do_not_fail_the_output(code: Option<i32>, failed: bool)
    requires
        call_ensures(mkvmerge_failed, (code,), failed),
    ensures
        code is None ==> failed,
        code matches Some(c) ==> (failed <==> c > 1),
{
}

/// Making the audio is quiet, and overwrites what an earlier run has left.
pub proof fn making_the_audio_is_quiet(source: Seq<char>, path: Seq<char>, plan: Seq<TrackPlan>)
    ensures
        quiet(audio_args_for(source, path, plan)),
        audio_args_for(source, path, plan)[3] == "-y"@,
{
}

} // verus!
