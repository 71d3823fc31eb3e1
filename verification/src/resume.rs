//! What a job leaves on disk so that a later run can go on with it.
use vstd::prelude::*;

use crate::encode::{crf_text, crf_texts_differ, quarters_text};
use crate::number::{
    all_digits, dec, dec_padded, digits_value, is_digit, lemma_dec_digits, zero_pad,
};
use crate::order::lex_lt;
use crate::paths::{join_path, joined_path};
use crate::strmap::StrMap;
use crate::text::{opt_view, plus, to_chars};

verus! {

/// One chunk of the video: the frames `start_frame..=end_frame`.
#[derive(Debug, Clone, Copy, PartialEq, Eq, Structural)]
pub struct SceneEntry {
    pub index: usize,
    pub start_frame: u64,
    pub end_frame: u64,
}

/// The key of the chunk with the given index: its number from one on, with at
/// least five digits.
pub open spec fn chunk_key(index: nat) -> Seq<char> {
    zero_pad(dec(index + 1), 5)
}

impl SceneEntry {
    /// The number of frames in the chunk.
    pub open spec fn frames(self) -> int {
        self.end_frame - self.start_frame + 1
    }

    pub fn frame_count(&self) -> (r: u64)
        requires
            self.start_frame <= self.end_frame,
            self.frames() <= u64::MAX,
        ensures
            r == self.frames(),
    {
        self.end_frame - self.start_frame + 1
    }

    pub fn padded_index(&self) -> (r: String)
        requires
            self.index < usize::MAX,
        ensures
            r@ == chunk_key(self.index as nat),
    {
        dec_padded((self.index + 1) as u64, 5)
    }
}

/// Zeros in front of a number do not change what it writes.
proof fn lemma_zero_pad_value(s: Seq<char>, width: nat)
    requires
        all_digits(s),
    ensures
        all_digits(zero_pad(s, width)),
        digits_value(zero_pad(s, width)) == digits_value(s),
    decreases s.len(),
{
    let padded = zero_pad(s, width);
    if s.len() < width {
        let zeros = Seq::new((width - s.len()) as nat, |i: int| '0');
        lemma_zeros((width - s.len()) as nat);
        lemma_value_after_zeros(zeros, s);
        assert forall|i: int| 0 <= i < padded.len() implies is_digit(#[trigger] padded[i]) by {
            if i >= zeros.len() {
                assert(padded[i] == s[i - zeros.len()]);
            }
        }
    }
}

proof fn lemma_zeros(n: nat)
    ensures
        digits_value(Seq::new(n, |i: int| '0')) == 0,
    decreases n,
{
    let zeros = Seq::new(n, |i: int| '0');
    if n > 0 {
        lemma_zeros((n - 1) as nat);
        assert(zeros.drop_last() =~= Seq::new((n - 1) as nat, |i: int| '0'));
    }
}

proof fn lemma_value_after_zeros(zeros: Seq<char>, s: Seq<char>)
    requires
        digits_value(zeros) == 0,
    ensures
        digits_value(zeros + s) == digits_value(s),
    decreases s.len(),
{
    if s.len() == 0 {
        assert(zeros + s =~= zeros);
    } else {
        lemma_value_after_zeros(zeros, s.drop_last());
        assert((zeros + s).drop_last() =~= zeros + s.drop_last());
    }
}

/// Chunks with different indices have different keys.
pub proof fn chunk_keys_differ(a: nat, b: nat)
    requires
        a != b,
    ensures
        chunk_key(a) != chunk_key(b),
{
    lemma_dec_digits(a + 1);
    lemma_dec_digits(b + 1);
    lemma_zero_pad_value(dec(a + 1), 5);
    lemma_zero_pad_value(dec(b + 1), 5);
}

/// The files of a job that lets a later run go on with it.
#[derive(Debug)]
pub struct TempDir {
    pub path: String,
    pub index_path: String,
    pub scenes_path: String,
    pub done_path: String,
    pub tq_path: String,
    pub failed_path: String,
    pub chunks_dir: String,
    pub crop_cache: String,
    pub fingerprint_path: String,
    pub source_id_path: String,
}

/// The directory of the job for the video with the given stem.
pub open spec fn job_dir(output_dir: Seq<char>, stem: Seq<char>) -> Seq<char> {
    joined_path(output_dir, ".avxs_"@ + stem)
}

/// The file of a chunk.
pub open spec fn chunk_file(chunks_dir: Seq<char>, key: Seq<char>) -> Seq<char> {
    joined_path(chunks_dir, key + ".ivf"@)
}

impl TempDir {
    pub fn for_video(output_dir: &str, video_stem: &str) -> (r: Self)
        ensures
            r.path@ == job_dir(output_dir@, video_stem@),
            r.index_path@ == joined_path(r.path@, "frame-index.ffindex"@),
            r.scenes_path@ == joined_path(r.path@, "scenes.json"@),
            r.done_path@ == joined_path(r.path@, "done.json"@),
            r.tq_path@ == joined_path(r.path@, "tq.json"@),
            r.failed_path@ == joined_path(r.path@, ".failed"@),
            r.chunks_dir@ == joined_path(r.path@, "chunks"@),
            r.crop_cache@ == joined_path(r.path@, "crop.cache"@),
            r.fingerprint_path@ == joined_path(r.path@, "fingerprint"@),
            r.source_id_path@ == joined_path(r.path@, "source"@),
    {
        let name = plus(".avxs_".to_owned(), video_stem);
        let path = join_path(output_dir, name.as_str());
        let index_path = join_path(path.as_str(), "frame-index.ffindex");
        let scenes_path = join_path(path.as_str(), "scenes.json");
        let done_path = join_path(path.as_str(), "done.json");
        let tq_path = join_path(path.as_str(), "tq.json");
        let failed_path = join_path(path.as_str(), ".failed");
        let chunks_dir = join_path(path.as_str(), "chunks");
        let crop_cache = join_path(path.as_str(), "crop.cache");
        let fingerprint_path = join_path(path.as_str(), "fingerprint");
        let source_id_path = join_path(path.as_str(), "source");
        TempDir {
            path,
            index_path,
            scenes_path,
            done_path,
            tq_path,
            failed_path,
            chunks_dir,
            crop_cache,
            fingerprint_path,
            source_id_path,
        }
    }

    pub fn chunk_path(&self, key: &str) -> (r: String)
        ensures
            r@ == chunk_file(self.chunks_dir@, key@),
    {
        let name = plus(key.to_owned(), ".ivf");
        join_path(self.chunks_dir.as_str(), name.as_str())
    }
}

/// Two names in one directory are the same path only if they are the same name.
proof fn lemma_joined_apart(base: Seq<char>, a: Seq<char>, b: Seq<char>)
    requires
        a.len() > 0 ==> a[0] != '/',
        b.len() > 0 ==> b[0] != '/',
        joined_path(base, a) == joined_path(base, b),
    ensures
        a == b,
{
    let head = if base.len() == 0 || base.last() == '/' {
        base
    } else {
        base + seq!['/']
    };
    assert(joined_path(base, a) == head + a);
    assert(joined_path(base, b) == head + b);
    assert((head + a).skip(head.len() as int) =~= a);
    assert((head + b).skip(head.len() as int) =~= b);
}

/// Jobs for videos with different stems keep their files apart.
pub proof fn jobs_keep_apart(output_dir: Seq<char>, a: Seq<char>, b: Seq<char>)
    requires
        a != b,
    ensures
        job_dir(output_dir, a) != job_dir(output_dir, b),
{
    reveal_strlit(".avxs_");
    let prefix = ".avxs_"@;
    if job_dir(output_dir, a) == job_dir(output_dir, b) {
        lemma_joined_apart(output_dir, prefix + a, prefix + b);
        assert((prefix + a).skip(6) =~= a);
        assert((prefix + b).skip(6) =~= b);
    }
}

/// Different chunks of a job are different files.
pub proof fn chunks_keep_apart(chunks_dir: Seq<char>, a: nat, b: nat)
    requires
        a != b,
    ensures
        chunk_file(chunks_dir, chunk_key(a)) != chunk_file(chunks_dir, chunk_key(b)),
{
    chunk_keys_differ(a, b);
    let ka = chunk_key(a);
    let kb = chunk_key(b);
    lemma_dec_digits(a + 1);
    lemma_dec_digits(b + 1);
    lemma_zero_pad_value(dec(a + 1), 5);
    lemma_zero_pad_value(dec(b + 1), 5);
    assert(is_digit(ka[0]) && is_digit(kb[0]));
    reveal_strlit(".ivf");
    if chunk_file(chunks_dir, ka) == chunk_file(chunks_dir, kb) {
        lemma_joined_apart(chunks_dir, ka + ".ivf"@, kb + ".ivf"@);
        assert((ka + ".ivf"@).take(ka.len() as int) =~= ka);
        assert((kb + ".ivf"@).take(kb.len() as int) =~= kb);
        assert((ka + ".ivf"@).len() == (kb + ".ivf"@).len());
    }
}

/// The contents of a state file; one without any counts as absent, since that is
/// what an interrupted write leaves behind.
pub fn state_text(text: Option<String>) -> (r: Option<String>)
    ensures
        opt_view(r) == (match opt_view(text) {
            Some(t) if t.len() > 0 => Some(t),
            _ => None,
        }),
{
    match text {
        Some(t) => {
            if to_chars(t.as_str()).len() > 0 {
                Some(t)
            } else {
                None
            }
        },
        None => None,
    }
}

/// What is recorded of a chunk that was encoded.
#[derive(Debug, Clone, Copy, PartialEq, Eq, Structural)]
pub struct ChunkInfo {
    pub frames: u64,
    pub size_bytes: u64,
}

/// The chunks of a job that were encoded, by their keys.
#[derive(Debug)]
pub struct DoneState {
    pub chunks: StrMap<ChunkInfo>,
}

impl Default for DoneState {
    fn default() -> (r: Self)
        ensures
            r.chunks@ == Map::<Seq<char>, ChunkInfo>::empty(),
    {
        DoneState { chunks: StrMap::new() }
    }
}

/// A chunk need not be encoded again: it is recorded, and its file has the size
/// that was recorded.
pub open spec fn chunk_done(
    chunks: Map<Seq<char>, ChunkInfo>,
    key: Seq<char>,
    on_disk: Option<u64>,
) -> bool {
    &&& chunks.contains_key(key)
    &&& chunks[key].size_bytes > 0
    &&& on_disk == Some(chunks[key].size_bytes)
}

impl DoneState {
    /// True when the chunk need not be encoded again; `on_disk` is the size of
    /// its file, if there is one.
    pub fn is_done(&self, chunk_key: &str, on_disk: Option<u64>) -> (r: bool)
        ensures
            r == chunk_done(self.chunks@, chunk_key@, on_disk),
    {
        match (self.chunks.get(chunk_key), on_disk) {
            (Some(info), Some(size)) => info.size_bytes > 0 && size == info.size_bytes,
            _ => false,
        }
    }

    /// Records a chunk that was encoded.
    pub fn mark_done(&mut self, chunk_key: &str, frames: u64, size_bytes: u64)
        ensures
            final(self).chunks@ == old(self).chunks@.insert(
                chunk_key@,
                ChunkInfo { frames, size_bytes },
            ),
    {
        self.chunks.insert(chunk_key.to_owned(), ChunkInfo { frames, size_bytes });
    }
}

/// A recorded chunk is done as long as its file keeps its size, a file that was
/// cut short or is missing is encoded again, and recording a chunk changes
/// nothing for the others.
pub proof fn recorded_chunks_are_done(
    chunks: Map<Seq<char>, ChunkInfo>,
    key: Seq<char>,
    info: ChunkInfo,
    other: Seq<char>,
    on_disk: Option<u64>,
)
    requires
        info.size_bytes > 0,
    ensures
        chunk_done(chunks.insert(key, info), key, on_disk) <==> on_disk == Some(info.size_bytes),
        other != key ==> chunk_done(chunks.insert(key, info), other, on_disk) == chunk_done(
            chunks,
            other,
            on_disk,
        ),
{
}

/// The solved CRFs of a job by the keys of their chunks, each as the decimal
/// number that is handed to the encoder.
#[derive(Debug)]
pub struct CrfCache {
    pub entries: StrMap<String>,
}

/// The texts of a map.
pub open spec fn text_map(m: Map<Seq<char>, String>) -> Map<Seq<char>, Seq<char>> {
    Map::new(|k: Seq<char>| m.contains_key(k), |k: Seq<char>| m[k]@)
}

/// The texts of a list by their keys.
pub open spec fn entry_texts(entries: Seq<(String, String)>) -> Map<Seq<char>, Seq<char>>
    decreases entries.len(),
{
    if entries.len() == 0 {
        Map::empty()
    } else {
        entry_texts(entries.drop_last()).insert(entries.last().0@, entries.last().1@)
    }
}

/// No key is in the list twice.
pub open spec fn distinct_keys(entries: Seq<(String, String)>) -> bool {
    forall|i: int, j: int|
        0 <= i < j < entries.len() ==> (#[trigger] entries[i]).0@ != (#[trigger] entries[j]).0@
}

/// The decimal numbers that are recorded for solved CRFs.
pub open spec fn texts_of(crfs: Map<Seq<char>, u32>) -> Map<Seq<char>, Seq<char>> {
    Map::new(|k: Seq<char>| crfs.contains_key(k), |k: Seq<char>| quarters_text(crfs[k] as nat))
}

/// The text is that of a number of quarter steps.
pub open spec fn is_quarters_text(text: Seq<char>) -> bool {
    exists|q: u32| text == #[trigger] quarters_text(q as nat)
}

/// All the texts are those of numbers of quarter steps, as a search finds them.
pub open spec fn all_quarters(texts: Map<Seq<char>, Seq<char>>) -> bool {
    forall|k: Seq<char>| texts.contains_key(k) ==> is_quarters_text(#[trigger] texts[k])
}

/// What `serde_json::from_str` reads from a text as an object of numbers: their
/// decimal texts by key, or nothing where the text is no such object.
pub uninterp spec fn json_numbers(raw: Seq<char>) -> Option<Map<Seq<char>, Seq<char>>>;

/// What `serde_json::to_string_pretty` writes for an object of numbers that are
/// given by their texts, or nothing where one of the texts is no number.
pub uninterp spec fn json_object(texts: Map<Seq<char>, Seq<char>>) -> Option<Seq<char>>;

/// Calls `serde_json::from_str` for an object of numbers and takes each number by
/// the text that its floating-point value is shown as. It is claimed that what
/// comes back depends on the text alone, and that no key comes back twice: the
/// numbers pass through a map.
#[verifier::external_body]
fn read_numbers(raw: &str) -> (r: Result<Vec<(String, String)>, serde_json::Error>)
    ensures
        match r {
            Ok(entries) => json_numbers(raw@) == Some(entry_texts(entries@)) && distinct_keys(
                entries@,
            ),
            Err(_) => json_numbers(raw@) is None,
        },
{
    let map: std::collections::BTreeMap<String, serde_json::Number> = serde_json::from_str(raw)?;
    let text = |number: serde_json::Number| number.as_f64().unwrap_or_default().to_string();
    Ok(map.into_iter().map(|(key, number)| (key, text(number))).collect())
}

/// Calls `serde_json::to_string_pretty` on an object of numbers, each of which is
/// given by its text. It is claimed that what is written depends on the texts by
/// their keys alone; and that decimal numbers of quarter steps can be written and
/// read back as the same texts: they are exact as floating-point numbers and are
/// shown without an exponent. Of other numbers it is not said that they read back,
/// since the parser may round them.
#[verifier::external_body]
fn write_numbers(entries: &[(String, String)]) -> (r: Result<String, serde_json::Error>)
    requires
        distinct_keys(entries@),
    ensures
        match r {
            Ok(text) => json_object(entry_texts(entries@)) == Some(text@),
            Err(_) => json_object(entry_texts(entries@)) is None,
        },
        all_quarters(entry_texts(entries@)) ==> r is Ok && json_numbers(r->Ok_0@) == Some(
            entry_texts(entries@),
        ),
{
    let number = |text: &String| serde_json::from_str::<serde_json::Number>(text);
    let map: Result<std::collections::BTreeMap<&String, serde_json::Number>, serde_json::Error> =
        entries.iter().map(|(key, text)| Ok((key, number(text)?))).collect();
    serde_json::to_string_pretty(&map?)
}

/// The record of the solved CRFs cannot be read or written.
#[derive(Debug)]
pub struct BadCache {
    pub cause: serde_json::Error,
}

impl BadCache {
    pub fn message(&self) -> (r: String)
        ensures
            r@ == "parse tq.json"@,
    {
        "parse tq.json".to_owned()
    }
}

/// A list holds the keys of its map, and where no key is twice, the text at each
/// position.
proof fn lemma_entries(entries: Seq<(String, String)>)
    ensures
        forall|k: Seq<char>|
            entry_texts(entries).contains_key(k) <==> exists|i: int|
                0 <= i < entries.len() && (#[trigger] entries[i]).0@ == k,
        distinct_keys(entries) ==> forall|i: int|
            0 <= i < entries.len() ==> entry_texts(entries)[(#[trigger] entries[i]).0@]
                == entries[i].1@,
    decreases entries.len(),
{
    if entries.len() > 0 {
        let init = entries.drop_last();
        let last = entries.last();
        lemma_entries(init);
        let texts = entry_texts(entries);
        assert forall|k: Seq<char>|
            texts.contains_key(k) <==> exists|i: int|
                0 <= i < entries.len() && (#[trigger] entries[i]).0@ == k by {
            if k == last.0@ {
                assert(entries[entries.len() - 1].0@ == k);
            }
            if entry_texts(init).contains_key(k) {
                let i = choose|i: int| 0 <= i < init.len() && (#[trigger] init[i]).0@ == k;
                assert(entries[i].0@ == k);
            }
            if exists|i: int| 0 <= i < entries.len() && (#[trigger] entries[i]).0@ == k {
                let i = choose|i: int| 0 <= i < entries.len() && (#[trigger] entries[i]).0@ == k;
                if i < init.len() {
                    assert(init[i].0@ == k);
                }
            }
        }
        if distinct_keys(entries) {
            assert forall|i: int, j: int| 0 <= i < j < init.len() implies (
            #[trigger] init[i]).0@ != (#[trigger] init[j]).0@ by {
                assert(init[i] == entries[i] && init[j] == entries[j]);
            }
            assert forall|i: int| 0 <= i < entries.len() implies texts[(
            #[trigger] entries[i]).0@] == entries[i].1@ by {
                if i < init.len() {
                    assert(init[i] == entries[i]);
                    assert(entries[entries.len() - 1] == last);
                }
            }
        }
    }
}

impl CrfCache {
    /// The recorded numbers by the keys of their chunks.
    pub open spec fn texts(self) -> Map<Seq<char>, Seq<char>> {
        text_map(self.entries@)
    }

    /// The cache that an earlier run left, from its keys and numbers.
    pub fn load(entries: &[(String, String)]) -> (r: Self)
        ensures
            r.texts() == entry_texts(entries@),
    {
        let mut map: StrMap<String> = StrMap::new();
        let mut i: usize = 0;
        assert(text_map(map@) =~= entry_texts(entries@.take(0)));
        while i < entries.len()
            invariant
                i <= entries@.len(),
                text_map(map@) == entry_texts(entries@.take(i as int)),
            decreases entries@.len() - i,
        {
            let ghost before = map@;
            assert(entries@.take(i + 1).drop_last() =~= entries@.take(i as int));
            let text = entries[i].1.clone();
            map.insert(entries[i].0.clone(), text);
            assert(text_map(map@) =~= text_map(before).insert(entries@[i as int].0@, text@));
            i += 1;
        }
        assert(entries@.take(i as int) =~= entries@);
        CrfCache { entries: map }
    }

    /// The CRF of a chunk, as it is handed to the encoder.
    pub fn get(&self, chunk_key: &str) -> (r: Option<String>)
        ensures
            opt_view(r) == (if self.texts().contains_key(chunk_key@) {
                Some(self.texts()[chunk_key@])
            } else {
                None
            }),
    {
        match self.entries.get(chunk_key) {
            Some(crf) => Some(crf.clone()),
            None => None,
        }
    }

    /// Records the CRF that was solved for a chunk, in quarter steps.
    pub fn insert(&mut self, chunk_key: &str, crf: u32)
        ensures
            final(self).texts() == old(self).texts().insert(
                chunk_key@,
                quarters_text(crf as nat),
            ),
    {
        let text = crf_text(crf);
        self.entries.insert(chunk_key.to_owned(), text);
        assert(self.texts() =~= old(self).texts().insert(chunk_key@, text@));
    }

    /// The keys and the decimal numbers to write, in the order of the keys.
    pub fn to_entries(&self) -> (r: Vec<(String, String)>)
        ensures
            r@.len() == self.entries.keys().len(),
            self.entries.well_formed(),
            forall|i: int|
                0 <= i < r@.len() ==> (#[trigger] r@[i]).0@ == self.entries.keys()[i] && r@[i].1@
                    == self.entries.values()[i]@,
            distinct_keys(r@),
            entry_texts(r@) == self.texts(),
    {
        let count: usize = self.entries.len();
        let mut r: Vec<(String, String)> = Vec::new();
        let mut i: usize = 0;
        while i < count
            invariant
                i <= count,
                count == self.entries.keys().len(),
                r@.len() == i,
                forall|k: int|
                    0 <= k < i ==> (#[trigger] r@[k]).0@ == self.entries.keys()[k] && r@[k].1@
                        == self.entries.values()[k]@,
            decreases count - i,
        {
            r.push((self.entries.key_at(i).clone(), self.entries.value_at(i).clone()));
            i += 1;
        }
        proof {
            lemma_written(self.entries, r@);
        }
        r
    }

    /// The cache that an earlier run left, from the contents of its file.
    pub fn from_json(raw: &str) -> (r: Result<Self, BadCache>)
        ensures
            match json_numbers(raw@) {
                Some(texts) => r matches Ok(cache) && cache.texts() == texts,
                None => r is Err,
            },
    {
        match read_numbers(raw) {
            Ok(entries) => Ok(Self::load(entries.as_slice())),
            Err(cause) => Err(BadCache { cause }),
        }
    }

    /// What to write to the file. Where all the numbers are such as a search finds,
    /// it can be written, and the next run reads back the same.
    pub fn to_json(&self) -> (r: Result<String, BadCache>)
        ensures
            match json_object(self.texts()) {
                Some(text) => r matches Ok(written) && written@ == text,
                None => r is Err,
            },
            all_quarters(self.texts()) ==> (r matches Ok(written) && json_numbers(written@)
                == Some(self.texts())),
    {
        match write_numbers(self.to_entries().as_slice()) {
            Ok(text) => Ok(text),
            Err(cause) => Err(BadCache { cause }),
        }
    }
}

/// The list that is written of a map holds its keys, none twice, with their texts.
proof fn lemma_written(map: StrMap<String>, written: Seq<(String, String)>)
    requires
        map.well_formed(),
        written.len() == map.keys().len(),
        forall|i: int|
            0 <= i < written.len() ==> (#[trigger] written[i]).0@ == map.keys()[i]
                && written[i].1@ == map.values()[i]@,
    ensures
        distinct_keys(written),
        entry_texts(written) == text_map(map@),
{
    let keys = map.keys();
    assert forall|i: int, j: int| 0 <= i < j < written.len() implies (
    #[trigger] written[i]).0@ != (#[trigger] written[j]).0@ by {
        assert(lex_lt(keys[i], keys[j]));
    }
    lemma_entries(written);
    let texts = entry_texts(written);
    assert forall|k: Seq<char>| texts.contains_key(k) == map@.contains_key(k) by {
        if keys.contains(k) {
            let i = keys.index_of(k);
            assert(written[i].0@ == k);
        }
        if texts.contains_key(k) {
            let i = choose|i: int| 0 <= i < written.len() && (#[trigger] written[i]).0@ == k;
            assert(keys[i] == k);
        }
    }
    assert forall|k: Seq<char>| texts.contains_key(k) implies texts[k] == map@[k]@ by {
        let i = keys.index_of(k);
        assert(map@.contains_key(k));
        assert(keys[i] == k);
        assert(written[i].0@ == k);
    }
    assert(texts =~= text_map(map@));
}

/// The CRFs that one run has recorded are those that the next one finds: they are
/// such as are read back, and the number that is found for a chunk is that of the
/// CRF that was recorded for it and of no other.
pub proof fn cache_survives_a_restart(crfs: Map<Seq<char>, u32>)
    ensures
        all_quarters(texts_of(crfs)),
        forall|k: Seq<char>, q: u32|
            (texts_of(crfs).contains_key(k) && texts_of(crfs)[k] == #[trigger] quarters_text(
                q as nat,
            )) <==> (#[trigger] crfs.contains_key(k) && crfs[k] == q),
{
    let texts = texts_of(crfs);
    assert forall|k: Seq<char>| texts.contains_key(k) implies is_quarters_text(
        #[trigger] texts[k],
    ) by {
        assert(texts[k] == quarters_text(crfs[k] as nat));
    }
    assert forall|k: Seq<char>, q: u32|
        (texts.contains_key(k) && texts[k] == #[trigger] quarters_text(q as nat)) <==> (
        #[trigger] crfs.contains_key(k) && crfs[k] == q) by {
        if texts.contains_key(k) && texts[k] == quarters_text(q as nat) {
            crf_texts_differ(crfs[k] as nat, q as nat);
        }
    }
}

/// Recording a CRF records it among the solved ones, and leaves those of the other
/// chunks as they were.
pub proof fn recorded_crfs_are_kept(crfs: Map<Seq<char>, u32>, key: Seq<char>, crf: u32)
    ensures
        texts_of(crfs).insert(key, quarters_text(crf as nat)) == texts_of(crfs.insert(key, crf)),
        texts_of(Map::empty()) == Map::<Seq<char>, Seq<char>>::empty(),
{
    assert(texts_of(crfs).insert(key, quarters_text(crf as nat)) =~= texts_of(
        crfs.insert(key, crf),
    ));
    assert(texts_of(Map::empty()) =~= Map::<Seq<char>, Seq<char>>::empty());
}

/// The key of a chunk writes its number from one on, with five digits at least, and
/// with more only where the number has more.
pub proof fn chunk_keys_write_their_number(index: nat)
    ensures
        all_digits(chunk_key(index)),
        digits_value(chunk_key(index)) == index + 1,
        chunk_key(index).len() >= 5,
        chunk_key(index).len() > 5 ==> chunk_key(index) == dec(index + 1),
{
    lemma_dec_digits(index + 1);
    lemma_zero_pad_value(dec(index + 1), 5);
}

/// The files of a job lie in a hidden directory of the output that is named after the
/// video, and the file of a chunk is named by its key.
pub proof fn files_of_a_job_are_named(dir: Seq<char>, stem: Seq<char>, key: Seq<char>)
    requires
        forall|i: int| 0 <= i < stem.len() ==> #[trigger] stem[i] != '/',
        forall|i: int| 0 <= i < key.len() ==> #[trigger] key[i] != '/',
    ensures
        crate::paths::file_name_of(job_dir(dir, stem)) == Some(".avxs_"@ + stem),
        crate::paths::file_name_of(chunk_file(dir, key)) == Some(key + ".ivf"@),
{
    reveal_strlit(".avxs_");
    reveal_strlit(".ivf");
    reveal_strlit(".");
    reveal_strlit("..");
    let d = ".avxs_"@ + stem;
    let f = key + ".ivf"@;
    assert forall|i: int| 0 <= i < d.len() implies #[trigger] d[i] != '/' by {
        if i >= 6 {
            assert(d[i] == stem[i - 6]);
        } else {
            assert(d[i] == ".avxs_"@[i]);
        }
    }
    assert forall|i: int| 0 <= i < f.len() implies #[trigger] f[i] != '/' by {
        if i < key.len() {
            assert(f[i] == key[i]);
        } else {
            assert(f[i] == ".ivf"@[i - key.len()]);
        }
    }
    assert(d.len() >= 6 && f.len() >= 4);
    crate::paths::files_lie_in_their_directory(dir, d);
    crate::paths::files_lie_in_their_directory(dir, f);
}

/// Each entry of a list is found under its own key, and nothing is found under a key
/// that is not in the list.
pub proof fn entries_are_found_by_key(entries: Seq<(String, String)>, i: int)
    requires
        0 <= i < entries.len(),
        distinct_keys(entries),
    ensures
        entry_texts(entries).contains_key(entries[i].0@),
        entry_texts(entries)[entries[i].0@] == entries[i].1@,
        forall|k: Seq<char>| #[trigger]
            entry_texts(entries).contains_key(k) ==> exists|j: int|
                0 <= j < entries.len() && (#[trigger] entries[j]).0@ == k,
{
    lemma_entries(entries);
}

/// A file without contents counts as absent, and any other as what it holds.
pub proof fn empty_files_count_as_absent(text: Option<String>, r: Option<String>)
    requires
        call_ensures(state_text, (text,), r),
    ensures
        r is Some <==> text is Some && text.unwrap()@.len() > 0,
        r matches Some(s) ==> s@ == text.unwrap()@,
{
}

/// The files of a job all lie in its directory, each under its own name.
pub proof fn files_of_a_job_lie_together(dir: &str, stem: &str, t: TempDir)
    requires
        call_ensures(TempDir::for_video, (dir, stem), t),
    ensures
        t.path@ == joined_path(dir@, ".avxs_"@ + stem@),
        t.index_path@ == joined_path(t.path@, "frame-index.ffindex"@),
        t.scenes_path@ == joined_path(t.path@, "scenes.json"@),
        t.done_path@ == joined_path(t.path@, "done.json"@),
        t.tq_path@ == joined_path(t.path@, "tq.json"@),
        t.failed_path@ == joined_path(t.path@, ".failed"@),
        t.chunks_dir@ == joined_path(t.path@, "chunks"@),
        t.crop_cache@ == joined_path(t.path@, "crop.cache"@),
        t.fingerprint_path@ == joined_path(t.path@, "fingerprint"@),
        t.source_id_path@ == joined_path(t.path@, "source"@),
{
}

/// A chunk has its first and its last frame, and all between: one frame where they are the
/// same, and two neighbours have together what they would have as one.
pub proof fn both_ends_of_a_chunk_count(a: SceneEntry, b: SceneEntry)
    ensures
        a.start_frame == a.end_frame ==> a.frames() == 1,
        a.end_frame + 1 == b.start_frame ==> a.frames() + b.frames() == (SceneEntry {
            end_frame: b.end_frame,
            ..a
        }).frames(),
        a.frames() == b.frames() && a.start_frame == b.start_frame ==> a.end_frame == b.end_frame,
{
}

/// A chunk for which nothing was written is never done, nor one that is not recorded.
pub proof fn empty_chunks_are_never_done(
    chunks: Map<Seq<char>, ChunkInfo>,
    key: Seq<char>,
    on_disk: Option<u64>,
)
    ensures
        on_disk is None || on_disk == Some(0u64) ==> !chunk_done(chunks, key, on_disk),
        !chunks.contains_key(key) ==> !chunk_done(chunks, key, on_disk),
{
}

} // verus!
