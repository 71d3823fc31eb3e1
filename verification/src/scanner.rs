//! The queue of jobs: which files of the input directory are encoded.
use vstd::prelude::*;

use crate::order::{ascending, sort_strings};
use crate::paths::{
    extension_of_name, file_name, file_name_of, join_path, joined_path, name_extension, name_stem,
    stem_of_name,
};
use crate::resume::{job_dir, TempDir};
use crate::text::{fold_case, folded, opt_str, opt_view, str_eq, to_chars, views};

verus! {

/// A file to encode, and the profile to encode it with.
#[derive(Debug)]
pub struct Job {
    pub encode_toml: String,
    pub source_file: String,
}

/// The name of a file without its extension, by which a job is known.
pub open spec fn stem_of(path: Seq<char>) -> Seq<char> {
    match file_name_of(path) {
        Some(name) => stem_of_name(name),
        None => "video"@,
    }
}

/// The name of a file without its extension.
pub fn path_stem(path: &str) -> (r: String)
    ensures
        r@ == stem_of(path@),
{
    match file_name(path) {
        Some(name) => name_stem(name.as_str()),
        None => "video".to_owned(),
    }
}

impl Job {
    pub fn stem(&self) -> (r: String)
        ensures
            r@ == stem_of(self.source_file@),
    {
        path_stem(self.source_file.as_str())
    }
}

/// No other job has the stem of the job at position `i`.
pub open spec fn is_alone(jobs: Seq<Job>, i: int) -> bool {
    forall|j: int|
        0 <= j < jobs.len() && j != i ==> stem_of((#[trigger] jobs[j]).source_file@) != stem_of(
            jobs[i].source_file@,
        )
}

/// The first `n` jobs without those that share their stem with another of all
/// the jobs.
pub open spec fn alone_jobs(jobs: Seq<Job>, n: nat) -> Seq<Job>
    decreases n,
{
    if n == 0 {
        Seq::empty()
    } else if is_alone(jobs, n - 1) {
        alone_jobs(jobs, (n - 1) as nat).push(jobs[n - 1])
    } else {
        alone_jobs(jobs, (n - 1) as nat)
    }
}

/// True when another job has the stem of the job at position `i`.
pub fn shares_stem(jobs: &[Job], i: usize) -> (r: bool)
    requires
        i < jobs@.len(),
    ensures
        r == !is_alone(jobs@, i as int),
{
    let stem = jobs[i].stem();
    let mut j: usize = 0;
    while j < jobs.len()
        invariant
            i < jobs@.len(),
            j <= jobs@.len(),
            stem@ == stem_of(jobs@[i as int].source_file@),
            forall|k: int|
                0 <= k < j && k != i ==> stem_of((#[trigger] jobs@[k]).source_file@) != stem@,
        decreases jobs@.len() - j,
    {
        if j != i && str_eq(jobs[j].stem().as_str(), stem.as_str()) {
            assert(stem_of(jobs@[j as int].source_file@) == stem@);
            return true;
        }
        j += 1;
    }
    false
}

/// The jobs that no other job shares its stem with. The stem names the output,
/// the directory of the job and the archived source, so of two jobs that share
/// one neither runs.
pub fn drop_stem_collisions(jobs: Vec<Job>) -> (r: Vec<Job>)
    ensures
        r@ == alone_jobs(jobs@, jobs@.len()),
{
    let mut kept: Vec<Job> = Vec::new();
    let mut i: usize = 0;
    while i < jobs.len()
        invariant
            i <= jobs@.len(),
            kept@ == alone_jobs(jobs@, i as nat),
        decreases jobs@.len() - i,
    {
        if !shares_stem(jobs.as_slice(), i) {
            kept.push(
                Job {
                    encode_toml: jobs[i].encode_toml.clone(),
                    source_file: jobs[i].source_file.clone(),
                },
            );
        }
        i += 1;
    }
    kept
}

/// The job is one of the first `n` that no other job shares its stem with.
spec fn comes_from(jobs: Seq<Job>, n: int, job: Job) -> bool {
    exists|i: int| 0 <= i < n && #[trigger] is_alone(jobs, i) && jobs[i] == job
}

proof fn lemma_alone_jobs(jobs: Seq<Job>, n: nat)
    requires
        n <= jobs.len(),
    ensures
        forall|k: int|
            0 <= k < alone_jobs(jobs, n).len() ==> comes_from(
                jobs,
                n as int,
                #[trigger] alone_jobs(jobs, n)[k],
            ),
        forall|i: int|
            0 <= i < n && #[trigger] is_alone(jobs, i) ==> alone_jobs(jobs, n).contains(jobs[i]),
    decreases n,
{
    if n > 0 {
        lemma_alone_jobs(jobs, (n - 1) as nat);
        let before = alone_jobs(jobs, (n - 1) as nat);
        let after = alone_jobs(jobs, n);
        assert forall|k: int| 0 <= k < after.len() implies comes_from(
            jobs,
            n as int,
            #[trigger] after[k],
        ) by {
            if k < before.len() {
                assert(after[k] == before[k]);
                assert(comes_from(jobs, n - 1, before[k]));
                let i = choose|i: int|
                    0 <= i < n - 1 && #[trigger] is_alone(jobs, i) && jobs[i] == before[k];
                assert(is_alone(jobs, i) && jobs[i] == after[k]);
            } else {
                assert(is_alone(jobs, n - 1) && jobs[n - 1] == after[k]);
            }
        }
        assert forall|i: int| 0 <= i < n && #[trigger] is_alone(jobs, i) implies after.contains(
            jobs[i],
        ) by {
            if i < n - 1 {
                assert(before.contains(jobs[i]));
                let k = before.index_of(jobs[i]);
                assert(after[k] == jobs[i]);
            } else {
                assert(after[before.len() as int] == jobs[i]);
            }
        }
    }
}

/// Exactly the jobs whose stem is theirs alone are queued.
pub proof fn queued_jobs_are_alone(jobs: Seq<Job>, i: int)
    requires
        0 <= i < jobs.len(),
    ensures
        alone_jobs(jobs, jobs.len()).contains(jobs[i]) <==> is_alone(jobs, i),
{
    lemma_alone_jobs(jobs, jobs.len());
    let kept = alone_jobs(jobs, jobs.len());
    if kept.contains(jobs[i]) {
        let k = kept.index_of(jobs[i]);
        assert(comes_from(jobs, jobs.len() as int, kept[k]));
        let m = choose|m: int|
            0 <= m < jobs.len() && #[trigger] is_alone(jobs, m) && jobs[m] == kept[k];
        if m != i {
            assert(stem_of(jobs[i].source_file@) != stem_of(jobs[m].source_file@));
        }
    }
}

/// No two queued jobs have one stem, so none overwrites what another writes.
pub proof fn queued_stems_differ(jobs: Seq<Job>, n: nat)
    requires
        n <= jobs.len(),
    ensures
        forall|i: int, j: int|
            0 <= i < j < alone_jobs(jobs, n).len() ==> stem_of(
                (#[trigger] alone_jobs(jobs, n)[i]).source_file@,
            ) != stem_of((#[trigger] alone_jobs(jobs, n)[j]).source_file@),
    decreases n,
{
    if n > 0 {
        queued_stems_differ(jobs, (n - 1) as nat);
        lemma_alone_jobs(jobs, (n - 1) as nat);
        let before = alone_jobs(jobs, (n - 1) as nat);
        let after = alone_jobs(jobs, n);
        assert forall|i: int, j: int| 0 <= i < j < after.len() implies stem_of(
            (#[trigger] after[i]).source_file@,
        ) != stem_of((#[trigger] after[j]).source_file@) by {
            assert(after[i] == before[i]);
            if j < before.len() {
                assert(after[j] == before[j]);
            } else {
                assert(comes_from(jobs, n - 1, before[i]));
                let m = choose|m: int|
                    0 <= m < n - 1 && #[trigger] is_alone(jobs, m) && jobs[m] == before[i];
                assert(is_alone(jobs, n - 1));
                assert(stem_of(jobs[m].source_file@) != stem_of(jobs[n - 1].source_file@));
            }
        }
    }
}

/// The extensions of video files.
pub open spec fn video_extensions() -> Seq<Seq<char>> {
    seq![
        "mkv"@,
        "mp4"@,
        "mov"@,
        "avi"@,
        "ts"@,
        "m2ts"@,
        "flv"@,
        "webm"@,
        "m4v"@,
    ]
}

/// A file is a video by its extension, in whatever case.
pub open spec fn is_video_name(name: Seq<char>) -> bool {
    match extension_of_name(name) {
        Some(ext) => video_extensions().contains(folded(ext)),
        None => false,
    }
}

/// A name holds a line break, which a list of files cannot.
pub open spec fn has_line_break(s: Seq<char>) -> bool {
    s.contains('\n') || s.contains('\r')
}

/// A file that is encoded: a video without a line break in its stem.
pub open spec fn is_wanted(name: Seq<char>) -> bool {
    is_video_name(name) && !has_line_break(stem_of_name(name))
}

fn is_video_extension(ext: &str) -> (r: bool)
    ensures
        r == video_extensions().contains(ext@),
{
    let table: [&'static str; 9] = [
        "mkv",
        "mp4",
        "mov",
        "avi",
        "ts",
        "m2ts",
        "flv",
        "webm",
        "m4v",
    ];
    let ghost list = video_extensions();
    assert(forall|k: int| 0 <= k < 9 ==> #[trigger] list[k] == table@[k]@);
    let mut i: usize = 0;
    while i < 9
        invariant
            i <= 9,
            list == video_extensions(),
            list.len() == 9,
            forall|k: int| 0 <= k < 9 ==> #[trigger] list[k] == table@[k]@,
            forall|k: int| 0 <= k < i ==> #[trigger] list[k] != ext@,
        decreases 9 - i,
    {
        assert(list[i as int] == table@[i as int]@);
        if str_eq(table[i], ext) {
            return true;
        }
        i += 1;
    }
    false
}

/// True when the file is a video.
pub fn is_video(name: &str) -> (r: bool)
    ensures
        r == is_video_name(name@),
{
    match name_extension(name) {
        Some(ext) => is_video_extension(fold_case(ext.as_str()).as_str()),
        None => false,
    }
}

/// True when the stem of the file holds a line break.
pub fn breaks_line(name: &str) -> (r: bool)
    ensures
        r == has_line_break(stem_of_name(name@)),
{
    let stem = name_stem(name);
    let chars = to_chars(stem.as_str());
    let mut i: usize = 0;
    while i < chars.len()
        invariant
            i <= chars@.len(),
            chars@ == stem_of_name(name@),
            forall|k: int| 0 <= k < i ==> chars@[k] != '\n' && chars@[k] != '\r',
        decreases chars@.len() - i,
    {
        if chars[i] == '\n' || chars[i] == '\r' {
            assert(chars@[i as int] == '\n' || chars@[i as int] == '\r');
            return true;
        }
        i += 1;
    }
    false
}

/// The names that are wanted, in their order.
pub open spec fn wanted_names(names: Seq<Seq<char>>) -> Seq<Seq<char>>
    decreases names.len(),
{
    if names.len() == 0 {
        Seq::empty()
    } else if is_wanted(names.last()) {
        wanted_names(names.drop_last()).push(names.last())
    } else {
        wanted_names(names.drop_last())
    }
}

/// The video files among the files of a directory, sorted by name.
pub fn find_video_files(names: &[String]) -> (r: Vec<String>)
    ensures
        ascending(views(r@)),
        views(r@).to_multiset() == wanted_names(views(names@)).to_multiset(),
{
    let ghost all = views(names@);
    let mut kept: Vec<String> = Vec::new();
    let mut i: usize = 0;
    assert(views(kept@) =~= Seq::<Seq<char>>::empty());
    while i < names.len()
        invariant
            i <= names@.len(),
            all == views(names@),
            views(kept@) == wanted_names(all.take(i as int)),
        decreases names@.len() - i,
    {
        assert(all.take(i + 1).drop_last() =~= all.take(i as int));
        assert(all.take(i + 1).last() == names@[i as int]@);
        if is_video(names[i].as_str()) && !breaks_line(names[i].as_str()) {
            crate::text::push_str(&mut kept, names[i].as_str());
        }
        i += 1;
    }
    assert(all.take(i as int) =~= all);
    sort_strings(kept)
}

/// The directories of profiles among the directories of the input: all but the
/// one that finished sources are moved to.
pub open spec fn profile_dirs_of(names: Seq<Seq<char>>) -> Seq<Seq<char>>
    decreases names.len(),
{
    if names.len() == 0 {
        Seq::empty()
    } else if names.last() != "processed"@ {
        profile_dirs_of(names.drop_last()).push(names.last())
    } else {
        profile_dirs_of(names.drop_last())
    }
}

pub fn profile_dirs(names: &[String]) -> (r: Vec<String>)
    ensures
        ascending(views(r@)),
        views(r@).to_multiset() == profile_dirs_of(views(names@)).to_multiset(),
{
    let ghost all = views(names@);
    let mut kept: Vec<String> = Vec::new();
    let mut i: usize = 0;
    assert(views(kept@) =~= Seq::<Seq<char>>::empty());
    while i < names.len()
        invariant
            i <= names@.len(),
            all == views(names@),
            views(kept@) == profile_dirs_of(all.take(i as int)),
        decreases names@.len() - i,
    {
        assert(all.take(i + 1).drop_last() =~= all.take(i as int));
        assert(all.take(i + 1).last() == names@[i as int]@);
        if !str_eq(names[i].as_str(), "processed") {
            crate::text::push_str(&mut kept, names[i].as_str());
        }
        i += 1;
    }
    assert(all.take(i as int) =~= all);
    sort_strings(kept)
}

/// The file that a job writes.
pub open spec fn output_of(output_dir: Seq<char>, stem: Seq<char>) -> Seq<char> {
    joined_path(output_dir, stem + ".mkv"@)
}

pub fn output_path(output_dir: &str, stem: &str) -> (r: String)
    ensures
        r@ == output_of(output_dir@, stem@),
{
    let name = crate::text::plus(stem.to_owned(), ".mkv");
    join_path(output_dir, name.as_str())
}

/// An output of the given size is there. An empty one is a leftover, since no
/// job ends with one.
pub fn output_exists(output_size: Option<u64>) -> (r: bool)
    ensures
        r == (output_size is Some && output_size.unwrap() > 0),
{
    match output_size {
        Some(n) => n > 0,
        None => false,
    }
}

/// A marker of failure stands in the way of a file: it was written for it, or
/// for a file that is not recorded. A path without a file name has no marker.
pub open spec fn is_blocked(
    marker_exists: bool,
    recorded_source: Option<Seq<char>>,
    source_file: Seq<char>,
) -> bool {
    &&& file_name_of(source_file) is Some
    &&& marker_exists
    &&& recorded_source is None || recorded_source == Some(source_file)
}

/// The marker that keeps a file from being tried again, if there is one. A
/// marker that was written for another file with the same stem does not.
pub fn failed_marker(
    output_dir: &str,
    source_file: &str,
    marker_exists: bool,
    recorded_source: Option<&str>,
) -> (r: Option<String>)
    ensures
        if is_blocked(marker_exists, opt_str(recorded_source), source_file@) {
            r matches Some(path) && path@ == joined_path(
                job_dir(output_dir@, stem_of(source_file@)),
                ".failed"@,
            )
        } else {
            r is None
        },
{
    if !marker_exists || file_name(source_file).is_none() {
        return None;
    }
    if let Some(recorded) = recorded_source {
        if !str_eq(recorded, source_file) {
            return None;
        }
    }
    let temp = TempDir::for_video(output_dir, path_stem(source_file).as_str());
    Some(temp.failed_path)
}

/// A video file that was found, and what is known of its output.
#[derive(Debug)]
pub struct Candidate {
    pub encode_toml: String,
    pub source_file: String,
    pub output_size: Option<u64>,
    pub marker_exists: bool,
    pub recorded_source: Option<String>,
}

/// A file is to be encoded: it has no output yet, and no marker stands in its
/// way.
pub open spec fn is_due(c: Candidate) -> bool {
    &&& !(c.output_size is Some && c.output_size.unwrap() > 0)
    &&& !is_blocked(c.marker_exists, opt_view(c.recorded_source), c.source_file@)
}

/// The jobs for the files that are to be encoded.
pub open spec fn due_jobs(found: Seq<Candidate>) -> Seq<Job>
    decreases found.len(),
{
    if found.len() == 0 {
        Seq::empty()
    } else if is_due(found.last()) {
        due_jobs(found.drop_last()).push(
            Job {
                encode_toml: found.last().encode_toml,
                source_file: found.last().source_file,
            },
        )
    } else {
        due_jobs(found.drop_last())
    }
}

/// The queue: the jobs for the files that are to be encoded, without those that
/// share a stem.
pub fn scan(output_dir: &str, found: &[Candidate]) -> (r: Vec<Job>)
    ensures
        r@ == alone_jobs(due_jobs(found@), due_jobs(found@).len()),
{
    let mut jobs: Vec<Job> = Vec::new();
    let mut i: usize = 0;
    while i < found.len()
        invariant
            i <= found@.len(),
            jobs@ == due_jobs(found@.take(i as int)),
        decreases found@.len() - i,
    {
        let c = &found[i];
        assert(found@.take(i + 1).drop_last() =~= found@.take(i as int));
        let marker = failed_marker(
            output_dir,
            c.source_file.as_str(),
            c.marker_exists,
            crate::text::as_opt_str(&c.recorded_source),
        );
        if !output_exists(c.output_size) && marker.is_none() {
            jobs.push(
                Job { encode_toml: c.encode_toml.clone(), source_file: c.source_file.clone() },
            );
        }
        i += 1;
    }
    assert(found@.take(i as int) =~= found@);
    drop_stem_collisions(jobs)
}

/// A file is a video exactly when what stands behind the last dot of its name is one of
/// the known extensions, in whatever case.
pub proof fn videos_are_known_by_their_extension(stem: Seq<char>, ext: Seq<char>)
    requires
        stem.len() > 0,
        forall|i: int| 0 <= i < ext.len() ==> #[trigger] ext[i] != '.',
        stem + "."@ + ext != ".."@,
    ensures
        is_video_name(stem + "."@ + ext) <==> {
            let e = folded(ext);
            ||| e == "mkv"@
            ||| e == "mp4"@
            ||| e == "mov"@
            ||| e == "avi"@
            ||| e == "ts"@
            ||| e == "m2ts"@
            ||| e == "flv"@
            ||| e == "webm"@
            ||| e == "m4v"@
        },
        !is_video_name(ext),
{
    crate::paths::extensions_stand_behind_the_last_dot(stem, ext);
    let all = video_extensions();
    assert(all[0] == "mkv"@ && all[1] == "mp4"@ && all[2] == "mov"@ && all[3] == "avi"@);
    assert(all[4] == "ts"@ && all[5] == "m2ts"@ && all[6] == "flv"@ && all[7] == "webm"@);
    assert(all[8] == "m4v"@);
}

/// Of the names in a directory exactly those of videos without a line break before the
/// extension are wanted.
pub proof fn videos_are_wanted(names: Seq<Seq<char>>, name: Seq<char>)
    ensures
        wanted_names(names).contains(name) <==> names.contains(name) && is_video_name(name)
            && !stem_of_name(name).contains('\n') && !stem_of_name(name).contains('\r'),
    decreases names.len(),
{
    if names.len() > 0 {
        let init = names.drop_last();
        videos_are_wanted(init, name);
        lemma_contains_last(names, name);
        if is_wanted(names.last()) {
            lemma_contains_last(wanted_names(names), name);
            assert(wanted_names(names).drop_last() =~= wanted_names(init));
        }
    }
}

proof fn lemma_contains_last(names: Seq<Seq<char>>, name: Seq<char>)
    requires
        names.len() > 0,
    ensures
        names.contains(name) <==> names.drop_last().contains(name) || names.last() == name,
{
    let init = names.drop_last();
    assert(names[names.len() - 1] == names.last());
    if names.contains(name) {
        let i = choose|i: int| 0 <= i < names.len() && names[i] == name;
        if i < init.len() {
            assert(init[i] == name);
        }
    }
    if init.contains(name) {
        let i = choose|i: int| 0 <= i < init.len() && init[i] == name;
        assert(names[i] == name);
    }
}

/// Every directory of the input holds a profile, but for the one of the finished
/// sources.
pub proof fn only_finished_sources_are_left_out(names: Seq<Seq<char>>, name: Seq<char>)
    ensures
        profile_dirs_of(names).contains(name) <==> names.contains(name) && name != "processed"@,
    decreases names.len(),
{
    if names.len() > 0 {
        let init = names.drop_last();
        only_finished_sources_are_left_out(init, name);
        lemma_contains_last(names, name);
        if names.last() != "processed"@ {
            lemma_contains_last(profile_dirs_of(names), name);
            assert(profile_dirs_of(names).drop_last() =~= profile_dirs_of(init));
        }
    }
}

/// A job for the candidate.
pub open spec fn is_job_for(job: Job, c: Candidate) -> bool {
    job.encode_toml == c.encode_toml && job.source_file == c.source_file
}

/// A file is due exactly when it has no output, or an empty one, and no marker of its
/// own stands in its way; and then it gets a job with its own profile.
pub proof fn files_are_due_until_done_or_failed(found: Seq<Candidate>, i: int)
    requires
        0 <= i < found.len(),
    ensures
        ({
            let c = found[i];
            let done = c.output_size matches Some(n) && n > 0;
            let failed = file_name_of(c.source_file@) is Some && c.marker_exists
                && match c.recorded_source {
                Some(s) => s@ == c.source_file@,
                None => true,
            };
            &&& is_due(c) <==> !done && !failed
            &&& is_due(c) ==> exists|k: int|
                0 <= k < due_jobs(found).len() && is_job_for(#[trigger] due_jobs(found)[k], c)
        }),
    decreases found.len(),
{
    let init = found.drop_last();
    let c = found[i];
    if is_due(c) {
        if i < init.len() {
            assert(init[i] == c);
            files_are_due_until_done_or_failed(init, i);
            let k = choose|k: int|
                0 <= k < due_jobs(init).len() && is_job_for(#[trigger] due_jobs(init)[k], c);
            assert(due_jobs(found)[k] == due_jobs(init)[k]);
        } else {
            let k = due_jobs(init).len() as int;
            assert(is_job_for(due_jobs(found)[k], c));
        }
    }
}

/// Every job is for a file that is due.
pub proof fn jobs_are_for_due_files(found: Seq<Candidate>, k: int)
    requires
        0 <= k < due_jobs(found).len(),
    ensures
        exists|i: int|
            0 <= i < found.len() && is_due(#[trigger] found[i]) && is_job_for(
                due_jobs(found)[k],
                found[i],
            ),
    decreases found.len(),
{
    let init = found.drop_last();
    if k < due_jobs(init).len() {
        jobs_are_for_due_files(init, k);
        let i = choose|i: int|
            0 <= i < init.len() && is_due(#[trigger] init[i]) && is_job_for(
                due_jobs(init)[k],
                init[i],
            );
        assert(found[i] == init[i]);
        assert(due_jobs(found)[k] == due_jobs(init)[k]);
    } else {
        assert(found[found.len() - 1] == found.last());
    }
}

/// The output of a job lies in the output directory, under the stem of its source and
/// as a Matroska file; the stem is that of the file, in whatever directory it lies.
pub proof fn outputs_are_named_after_their_source(dir: Seq<char>, name: Seq<char>, out: Seq<char>)
    requires
        name.len() > 0,
        forall|i: int| 0 <= i < name.len() ==> #[trigger] name[i] != '/',
        name != "."@,
        name != ".."@,
    ensures
        stem_of(joined_path(dir, name)) == stem_of_name(name),
        file_name_of(output_of(out, stem_of_name(name))) == Some(stem_of_name(name) + ".mkv"@),
{
    reveal_strlit(".mkv");
    reveal_strlit(".");
    reveal_strlit("..");
    crate::paths::files_lie_in_their_directory(dir, name);
    crate::paths::names_are_stem_and_extension(name);
    let stem = stem_of_name(name);
    let file = stem + ".mkv"@;
    assert forall|i: int| 0 <= i < file.len() implies #[trigger] file[i] != '/' by {
        if i < stem.len() {
            assert(file[i] == stem[i]);
            assert(stem[i] == name[i]);
        } else {
            assert(file[i] == ".mkv"@[i - stem.len()]);
        }
    }
    assert(file.len() >= 4);
    crate::paths::files_lie_in_their_directory(out, file);
}

/// An output that is empty counts as none.
pub proof fn empty_outputs_do_not_count(size: Option<u64>, r: bool)
    requires
        call_ensures(output_exists, (size,), r),
    ensures
        r <==> size is Some && size != Some(0u64),
{
}

/// The marker that stands in the way of a file is the one in the directory of its job.
pub proof fn markers_lie_with_the_job(
    output_dir: &str,
    source_file: &str,
    exists_there: bool,
    recorded: Option<&str>,
    r: Option<String>,
)
    requires
        call_ensures(failed_marker, (output_dir, source_file, exists_there, recorded), r),
    ensures
        r is Some <==> exists_there && file_name_of(source_file@) is Some && (recorded is None
            || recorded.unwrap()@ == source_file@),
        r matches Some(path) ==> path@ == joined_path(
            joined_path(output_dir@, ".avxs_"@ + stem_of(source_file@)),
            ".failed"@,
        ),
{
}

/// Of two jobs that share a stem neither is queued, wherever they stand.
pub proof fn jobs_that_share_a_stem_do_not_run(jobs: Seq<Job>, i: int, j: int)
    requires
        0 <= i < jobs.len(),
        0 <= j < jobs.len(),
        i != j,
        stem_of(jobs[i].source_file@) == stem_of(jobs[j].source_file@),
    ensures
        !alone_jobs(jobs, jobs.len()).contains(jobs[i]),
        !alone_jobs(jobs, jobs.len()).contains(jobs[j]),
{
    queued_jobs_are_alone(jobs, i);
    queued_jobs_are_alone(jobs, j);
}

/// A job whose stem no other has is queued.
pub proof fn jobs_with_a_stem_of_their_own_run(jobs: Seq<Job>, i: int)
    requires
        0 <= i < jobs.len(),
        forall|j: int|
            0 <= j < jobs.len() && j != i ==> stem_of((#[trigger] jobs[j]).source_file@) != stem_of(
                jobs[i].source_file@,
            ),
    ensures
        alone_jobs(jobs, jobs.len()).contains(jobs[i]),
{
    queued_jobs_are_alone(jobs, i);
}

} // verus!
