//! Subtitle tracks: which of them reach the output.
use vstd::prelude::*;

use crate::config::{language_kept, language_selected, SubtitleConfig, SubtitleMode};
use crate::number::{dec, dec_u64};
use crate::text::{as_opt_str, join, joined, opt_view, push_str, push_string, str_eq, views};

verus! {

#[derive(Debug)]
pub enum SubtitleSelection {
    /// No subtitle track is kept.
    Strip,
    /// Every subtitle track is kept.
    All,
    /// The tracks with these numbers among the subtitle tracks are kept.
    Indices(Vec<usize>),
}

/// The mathematical counterpart of [`SubtitleSelection`].
pub enum Selection {
    Strip,
    All,
    Indices(Seq<int>),
}

pub open spec fn ints(v: Seq<usize>) -> Seq<int> {
    Seq::new(v.len(), |i: int| v[i] as int)
}

impl View for SubtitleSelection {
    type V = Selection;

    open spec fn view(&self) -> Selection {
        match *self {
            SubtitleSelection::Strip => Selection::Strip,
            SubtitleSelection::All => Selection::All,
            SubtitleSelection::Indices(v) => Selection::Indices(ints(v@)),
        }
    }
}

/// The numbers of the tracks whose language is on the whitelist, ascending.
pub open spec fn kept_indices(
    languages: Seq<Option<Seq<char>>>,
    whitelist: Seq<Seq<char>>,
) -> Seq<int>
    decreases languages.len(),
{
    if languages.len() == 0 {
        Seq::empty()
    } else {
        let before = kept_indices(languages.drop_last(), whitelist);
        if language_kept(whitelist, languages.last()) {
            before.push(languages.len() - 1)
        } else {
            before
        }
    }
}

/// The languages of a list of tracks.
pub open spec fn languages_of(v: Seq<Option<String>>) -> Seq<Option<Seq<char>>> {
    Seq::new(v.len(), |i: int| opt_view(v[i]))
}

/// The tracks that a profile keeps, or none where that depends on the
/// languages of the tracks.
pub open spec fn selection_without_probe(config: SubtitleConfig) -> Option<Selection> {
    if config.mode == SubtitleMode::Strip {
        Some(Selection::Strip)
    } else if config.language_whitelist@.len() == 0 {
        Some(Selection::All)
    } else {
        None
    }
}

/// The selection where the profile alone decides; none where the languages of
/// the tracks have to be looked up.
pub fn select_without_probe(config: &SubtitleConfig) -> (r: Option<SubtitleSelection>)
    ensures
        match selection_without_probe(*config) {
            Some(s) => r matches Some(sel) && sel@ == s,
            None => r is None,
        },
{
    if config.mode == SubtitleMode::Strip {
        return Some(SubtitleSelection::Strip);
    }
    if config.language_whitelist.len() == 0 {
        return Some(SubtitleSelection::All);
    }
    None
}

/// The subtitle tracks to keep, from the languages of all of them.
pub fn select_tracks(languages: &[Option<String>], config: &SubtitleConfig) -> (r:
    SubtitleSelection)
    ensures
        r@ == (match selection_without_probe(*config) {
            Some(s) => s,
            None => Selection::Indices(
                kept_indices(languages_of(languages@), views(config.language_whitelist@)),
            ),
        }),
{
    if let Some(s) = select_without_probe(config) {
        return s;
    }
    let ghost langs = languages_of(languages@);
    let ghost whitelist = views(config.language_whitelist@);
    let mut kept: Vec<usize> = Vec::new();
    let mut i: usize = 0;
    assert(ints(kept@) =~= Seq::<int>::empty());
    while i < languages.len()
        invariant
            i <= languages@.len(),
            langs == languages_of(languages@),
            whitelist == views(config.language_whitelist@),
            ints(kept@) == kept_indices(langs.take(i as int), whitelist),
        decreases languages@.len() - i,
    {
        assert(langs.take(i + 1).drop_last() =~= langs.take(i as int));
        assert(langs.take(i + 1).last() == opt_view(languages@[i as int]));
        let ghost before = kept@;
        if language_selected(config.language_whitelist.as_slice(), as_opt_str(&languages[i])) {
            kept.push(i);
            assert(ints(kept@) =~= ints(before).push(i as int));
        }
        i += 1;
    }
    assert(langs.take(i as int) =~= langs);
    SubtitleSelection::Indices(kept)
}

/// Exactly the tracks whose language is on the whitelist are kept, each once
/// and in their order.
pub proof fn kept_indices_are_those_on_the_whitelist(
    languages: Seq<Option<Seq<char>>>,
    whitelist: Seq<Seq<char>>,
)
    ensures
        forall|i: int|
            #![trigger languages[i]]
            kept_indices(languages, whitelist).contains(i) <==> 0 <= i < languages.len()
                && language_kept(whitelist, languages[i]),
        forall|i: int, j: int|
            0 <= i < j < kept_indices(languages, whitelist).len() ==> kept_indices(
                languages,
                whitelist,
            )[i] < kept_indices(languages, whitelist)[j],
        forall|i: int|
            0 <= i < kept_indices(languages, whitelist).len() ==> 0 <= #[trigger] kept_indices(
                languages,
                whitelist,
            )[i] < languages.len(),
    decreases languages.len(),
{
    if languages.len() > 0 {
        let init = languages.drop_last();
        let n = languages.len() - 1;
        let before = kept_indices(init, whitelist);
        let after = kept_indices(languages, whitelist);
        kept_indices_are_those_on_the_whitelist(init, whitelist);
        assert forall|i: int|
            #![trigger languages[i]]
            after.contains(i) <==> 0 <= i < languages.len() && language_kept(
                whitelist,
                languages[i],
            ) by {
            if 0 <= i < n {
                assert(init[i] == languages[i]);
            }
            if after.contains(i) {
                let k = after.index_of(i);
                if k < before.len() {
                    assert(before[k] == i);
                    assert(before.contains(i));
                    assert(init[i] == languages[i]);
                } else {
                    assert(i == n);
                }
            }
            if 0 <= i < languages.len() && language_kept(whitelist, languages[i]) {
                if i < n {
                    assert(before.contains(i));
                    let k = before.index_of(i);
                    assert(after[k] == i);
                } else {
                    assert(after[before.len() as int] == i);
                }
            }
        }
    }
}

/// The ids of the subtitle tracks among the tracks of a container, in their
/// order.
pub open spec fn subtitle_ids_of(tracks: Seq<(u64, String)>) -> Seq<u64>
    decreases tracks.len(),
{
    if tracks.len() == 0 {
        Seq::empty()
    } else if tracks.last().1@ == "subtitles"@ {
        subtitle_ids_of(tracks.drop_last()).push(tracks.last().0)
    } else {
        subtitle_ids_of(tracks.drop_last())
    }
}

/// The ids of the tracks with the given numbers; a number without a track is
/// passed over.
pub open spec fn ids_at(ids: Seq<u64>, indices: Seq<int>) -> Seq<u64>
    decreases indices.len(),
{
    if indices.len() == 0 {
        Seq::empty()
    } else {
        let before = ids_at(ids, indices.drop_last());
        if 0 <= indices.last() < ids.len() {
            before.push(ids[indices.last()])
        } else {
            before
        }
    }
}

/// The ids that the container gives to the selected subtitle tracks. `tracks`
/// are all its tracks, with their ids and kinds.
pub fn track_ids(tracks: &[(u64, String)], indices: &[usize]) -> (r: Vec<u64>)
    ensures
        r@ == ids_at(subtitle_ids_of(tracks@), ints(indices@)),
{
    let mut ids: Vec<u64> = Vec::new();
    let mut i: usize = 0;
    while i < tracks.len()
        invariant
            i <= tracks@.len(),
            ids@ == subtitle_ids_of(tracks@.take(i as int)),
        decreases tracks@.len() - i,
    {
        assert(tracks@.take(i + 1).drop_last() =~= tracks@.take(i as int));
        if str_eq(tracks[i].1.as_str(), "subtitles") {
            ids.push(tracks[i].0);
        }
        i += 1;
    }
    assert(tracks@.take(i as int) =~= tracks@);
    let ghost wanted = ints(indices@);
    let mut r: Vec<u64> = Vec::new();
    let mut k: usize = 0;
    while k < indices.len()
        invariant
            k <= indices@.len(),
            wanted == ints(indices@),
            r@ == ids_at(ids@, wanted.take(k as int)),
        decreases indices@.len() - k,
    {
        assert(wanted.take(k + 1).drop_last() =~= wanted.take(k as int));
        assert(wanted.take(k + 1).last() == indices@[k as int]);
        if indices[k] < ids.len() {
            r.push(ids[indices[k]]);
        }
        k += 1;
    }
    assert(wanted.take(k as int) =~= wanted);
    r
}

/// A list of numbers in decimal.
pub open spec fn dec_list(ids: Seq<u64>) -> Seq<Seq<char>> {
    Seq::new(ids.len(), |i: int| dec(ids[i] as nat))
}

/// The arguments of mkvmerge for the subtitles of the source; `ids` are those
/// of the selected tracks.
pub open spec fn subtitle_args_for(selection: Selection, ids: Seq<u64>) -> Seq<Seq<char>> {
    match selection {
        Selection::Strip => seq!["--no-subtitles"@],
        Selection::All => Seq::empty(),
        Selection::Indices(_) => if ids.len() == 0 {
            seq!["--no-subtitles"@]
        } else {
            seq!["--subtitle-tracks"@, joined(dec_list(ids), ","@)]
        },
    }
}

pub fn subtitle_args(selection: &SubtitleSelection, ids: &[u64]) -> (r: Vec<String>)
    ensures
        views(r@) == subtitle_args_for(selection@, ids@),
{
    let mut args: Vec<String> = Vec::new();
    match selection {
        SubtitleSelection::Strip => {
            push_str(&mut args, "--no-subtitles");
        },
        SubtitleSelection::All => {},
        SubtitleSelection::Indices(_) => {
            if ids.len() == 0 {
                push_str(&mut args, "--no-subtitles");
            } else {
                let mut texts: Vec<String> = Vec::new();
                let mut i: usize = 0;
                while i < ids.len()
                    invariant
                        i <= ids@.len(),
                        texts@.len() == i,
                        forall|k: int| 0 <= k < i ==> #[trigger] texts@[k]@ == dec(ids@[k] as nat),
                    decreases ids@.len() - i,
                {
                    texts.push(dec_u64(ids[i]));
                    i += 1;
                }
                assert(views(texts@) =~= dec_list(ids@));
                push_str(&mut args, "--subtitle-tracks");
                push_string(&mut args, join(&texts, ","));
            }
        },
    }
    assert(views(args@) =~= subtitle_args_for(selection@, ids@));
    args
}

/// How often the languages of the tracks are asked for before that is given up.
pub const PROBE_ATTEMPTS: u32 = 3;

/// True when the languages are to be asked for again after so many failures.
pub fn retry(failed: u32) -> (again: bool)
    ensures
        again == (failed < 3),
{
    failed < PROBE_ATTEMPTS
}

/// How many of the first `n` tracks of a container are subtitles.
pub open spec fn subtitles_before(tracks: Seq<(u64, String)>, n: nat) -> nat
    decreases n,
{
    if n == 0 {
        0
    } else {
        subtitles_before(tracks, (n - 1) as nat) + (if tracks[n - 1].1@ == "subtitles"@ {
            1nat
        } else {
            0nat
        })
    }
}

/// The subtitle tracks keep the order of the container: the one that has `n` of them
/// before it is the `n`th, and no other track is among them.
pub proof fn subtitles_keep_their_order(tracks: Seq<(u64, String)>, p: int)
    requires
        0 <= p < tracks.len(),
        tracks[p].1@ == "subtitles"@,
    ensures
        subtitle_ids_of(tracks).len() == subtitles_before(tracks, tracks.len()),
        subtitles_before(tracks, p as nat) < subtitle_ids_of(tracks).len(),
        subtitle_ids_of(tracks)[subtitles_before(tracks, p as nat) as int] == tracks[p].0,
    decreases tracks.len(),
{
    let init = tracks.drop_last();
    lemma_subtitle_count(tracks);
    lemma_subtitle_count(init);
    lemma_before_prefix(tracks, init.len());
    lemma_before_prefix(tracks, p as nat);
    assert(tracks[tracks.len() - 1] == tracks.last());
    if p < init.len() {
        assert(init[p] == tracks[p]);
        subtitles_keep_their_order(init, p);
        lemma_before_prefix(tracks, p as nat);
    }
}

proof fn lemma_subtitle_count(tracks: Seq<(u64, String)>)
    ensures
        subtitle_ids_of(tracks).len() == subtitles_before(tracks, tracks.len()),
    decreases tracks.len(),
{
    if tracks.len() > 0 {
        lemma_subtitle_count(tracks.drop_last());
        lemma_before_prefix(tracks, (tracks.len() - 1) as nat);
    }
}

proof fn lemma_before_prefix(tracks: Seq<(u64, String)>, n: nat)
    requires
        n < tracks.len(),
    ensures
        subtitles_before(tracks.drop_last(), n) == subtitles_before(tracks, n),
    decreases n,
{
    if n > 0 {
        lemma_before_prefix(tracks, (n - 1) as nat);
        assert(tracks.drop_last()[n - 1] == tracks[n - 1]);
    }
}

/// The selected tracks are named by the ids that the container gives them, one for
/// each, in the order of the selection.
pub proof fn selected_tracks_are_named_by_their_ids(ids: Seq<u64>, indices: Seq<int>)
    requires
        forall|i: int| 0 <= i < indices.len() ==> 0 <= #[trigger] indices[i] < ids.len(),
    ensures
        ids_at(ids, indices).len() == indices.len(),
        forall|i: int|
            0 <= i < indices.len() ==> #[trigger] ids_at(ids, indices)[i] == ids[indices[i]],
    decreases indices.len(),
{
    if indices.len() > 0 {
        let init = indices.drop_last();
        assert forall|i: int| 0 <= i < init.len() implies 0 <= #[trigger] init[i] < ids.len() by {
            assert(init[i] == indices[i]);
        }
        selected_tracks_are_named_by_their_ids(ids, init);
        assert(indices[indices.len() - 1] == indices.last());
        assert forall|i: int| 0 <= i < indices.len() implies #[trigger] ids_at(ids, indices)[i]
            == ids[indices[i]] by {
            if i < init.len() {
                assert(ids_at(ids, init)[i] == ids[init[i]]);
            }
        }
    }
}

/// Stripping keeps no subtitles, whatever the whitelist says; without a whitelist all
/// of them are kept, and only with one does it matter what languages there are.
pub proof fn profiles_decide_on_subtitles(config: SubtitleConfig)
    ensures
        config.mode == SubtitleMode::Strip ==> selection_without_probe(config) == Some(
            Selection::Strip,
        ),
        config.mode == SubtitleMode::Copy && config.language_whitelist@.len() == 0
            ==> selection_without_probe(config) == Some(Selection::All),
        config.mode == SubtitleMode::Copy && config.language_whitelist@.len() > 0
            ==> selection_without_probe(config) is None,
{
}

/// No subtitles are taken from the source where none is selected, all where nothing
/// is said of them, and else exactly those whose ids are listed.
pub proof fn selections_reach_the_muxer(selection: Selection, ids: Seq<u64>)
    ensures
        ({
            let args = subtitle_args_for(selection, ids);
            &&& selection is Strip ==> args == seq!["--no-subtitles"@]
            &&& selection is All ==> args.len() == 0
            &&& selection is Indices && ids.len() == 0 ==> args == seq!["--no-subtitles"@]
            &&& selection is Indices && ids.len() > 0 ==> args.len() == 2 && args[0]
                == "--subtitle-tracks"@ && args[1] == joined(
                Seq::new(ids.len(), |i: int| dec(ids[i] as nat)),
                ","@,
            )
        }),
{
    assert(dec_list(ids) =~= Seq::new(ids.len(), |i: int| dec(ids[i] as nat)));
}

/// The languages are asked for three times at most.
pub proof fn languages_are_asked_for_three_times(failed: u32, again: bool)
    requires
        call_ensures(retry, (failed,), again),
    ensures
        again <==> failed == 0 || failed == 1 || failed == 2,
{
}

/// Subtitles that a whitelist drops do not reach the output, and those that it keeps do.
pub proof fn whitelisted_subtitles_are_selected(
    languages: &[Option<String>],
    config: &SubtitleConfig,
    selection: SubtitleSelection,
    i: int,
)
    requires
        call_ensures(select_tracks, (languages, config), selection),
        config.mode == SubtitleMode::Copy,
        config.language_whitelist@.len() > 0,
        0 <= i < languages@.len(),
    ensures
        selection@ matches Selection::Indices(kept) && (kept.contains(i) <==> language_kept(
            views(config.language_whitelist@),
            opt_view(languages@[i]),
        )),
{
    let l = languages_of(languages@);
    kept_indices_are_those_on_the_whitelist(l, views(config.language_whitelist@));
    assert(l[i] == opt_view(languages@[i]));
}

/// A number without a track is passed over, and changes nothing for the others.
pub proof fn numbers_without_a_track_are_passed_over(ids: Seq<u64>, indices: Seq<int>, i: int)
    ensures
        i < 0 || i >= ids.len() ==> ids_at(ids, indices.push(i)) == ids_at(ids, indices),
        0 <= i < ids.len() ==> ids_at(ids, indices.push(i)) == ids_at(ids, indices).push(ids[i]),
{
    assert(indices.push(i).drop_last() =~= indices);
}

} // verus!
