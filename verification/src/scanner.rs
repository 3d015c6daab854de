//! Scanning a folder: which files to analyse, what an analysis makes of a file, and how the results
//! are gathered, saved and reported.

use crate::database;
use crate::database::{MetadataIndex, TrackData};
use crate::paths;
use crate::paths::{extension_of, file_name_of};
use crate::rounding;
use crate::rounding::divide_to_bits;
use crate::text;
use crate::text::{chars_of, same_text};
use vstd::arithmetic::power2::*;
use vstd::prelude::*;
use vstd::string::*;

verus! {

/// The number of records that are saved together.
pub const BATCH_SIZE: usize = 50;

/// The number of milliseconds that pass between two reports of progress.
pub const REPORT_INTERVAL: u128 = 100;

/// The sample rate that a recording is taken to have where it does not say, and that of the
/// synthesizer.
pub const DEFAULT_SAMPLE_RATE: u32 = 44100;

/// How far a scan has come. The stage is one of those that `is_stage` names.
#[derive(Debug, Clone)]
pub struct ScanProgress {
    pub total: usize,
    pub current: usize,
    pub path: String,
    pub stage: String,
}

/// A file that a scan comes upon. `name` and `extension` are those of its path, empty where there is
/// none; `modified` is the time of its last modification in seconds since 1970, where it can be had
/// and is not earlier.
#[derive(Debug)]
pub struct Candidate {
    pub path: String,
    pub name: String,
    pub extension: String,
    pub is_file: bool,
    pub modified: Option<u64>,
    pub len: u64,
}

/// A file that is to be analysed.
#[derive(Debug)]
pub struct Entry {
    pub path: String,
    pub mtime: i64,
    pub size: i64,
}

/// What makes a sound: a recording, or a score that a synthesizer plays.
#[derive(Debug, Clone, Copy, PartialEq, Eq, Structural)]
pub enum SourceKind {
    Recording,
    Midi,
}

/// What a tag tells.
#[derive(Debug, Clone, Copy, PartialEq, Eq, Structural)]
pub enum TagKind {
    TrackTitle,
    Artist,
    Album,
    Genre,
    Comment,
    Other,
}

/// A tag of a recording.
#[derive(Debug)]
pub struct Tag {
    pub kind: TagKind,
    pub value: String,
}

/// What a recording says about its encoding. `channels` is their number.
#[derive(Debug, Clone, Copy)]
pub struct CodecParams {
    pub n_frames: Option<u64>,
    pub sample_rate: Option<u32>,
    pub bits_per_sample: Option<u32>,
    pub channels: Option<usize>,
}

/// A stage of a scan.
pub open spec fn is_stage(stage: Seq<char>) -> bool {
    stage == "Scanning"@ || stage == "Analyzing"@ || stage == "Saving"@
}

/// An extension, in lower case, that audio files have.
pub open spec fn is_audio_extension(ext: Seq<char>) -> bool {
    ||| ext == "wav"@
    ||| ext == "mp3"@
    ||| ext == "flac"@
    ||| ext == "aif"@
    ||| ext == "aiff"@
    ||| ext == "m4a"@
    ||| ext == "ogg"@
    ||| ext == "wma"@
    ||| ext == "mid"@
    ||| ext == "midi"@
    ||| ext == "aac"@
}

/// A file with this name, and this extension in lower case, is taken for an audio file: its
/// extension is one of theirs, and it is not hidden.
pub open spec fn is_audio_name(name: Seq<char>, lower_ext: Seq<char>) -> bool {
    !(name.len() > 0 && name[0] == '.') && is_audio_extension(lower_ext)
}

/// An optional text, empty where there is none.
pub open spec fn or_empty(o: Option<Seq<char>>) -> Seq<char> {
    match o {
        Some(s) => s,
        None => Seq::empty(),
    }
}

/// The file at a path is taken for an audio file.
pub open spec fn is_audio_path(path: Seq<char>) -> bool {
    is_audio_name(
        or_empty(paths::file_name(path)),
        text::lowercase(or_empty(paths::extension(path))),
    )
}

/// The kind of source that an extension in lower case stands for.
pub open spec fn kind_of_extension(lower_ext: Seq<char>) -> SourceKind {
    if lower_ext == "mid"@ || lower_ext == "midi"@ {
        SourceKind::Midi
    } else {
        SourceKind::Recording
    }
}

/// The kind of source at a path.
pub open spec fn kind_of_path(path: Seq<char>) -> SourceKind {
    kind_of_extension(text::lowercase(or_empty(paths::extension(path))))
}

/// The entry that a candidate makes, whatever is catalogued: none unless it is an audio file whose
/// time is known.
pub open spec fn entry_of(c: Candidate) -> Option<(Seq<char>, (i64, i64))> {
    if c.is_file && is_audio_name(c.name@, text::lowercase(c.extension@)) {
        match c.modified {
            Some(secs) => Some((c.path@, (secs as i64, c.len as i64))),
            None => None,
        }
    } else {
        None
    }
}

/// The entry that is to be analysed for a candidate: the one that it makes, unless it is catalogued
/// with the same time and size.
pub open spec fn selected(
    index: Map<Seq<char>, (i64, i64)>,
    c: Candidate,
) -> Option<(Seq<char>, (i64, i64))> {
    match entry_of(c) {
        Some(e) => if index.contains_key(e.0) && index[e.0] == e.1 {
            None
        } else {
            Some(e)
        },
        None => None,
    }
}

/// A file that was analysed and catalogued is not selected again, as long as its time and size stay
/// the same.
pub proof fn catalogued_files_are_not_selected_again(
    index: Map<Seq<char>, (i64, i64)>,
    c: Candidate,
    rows: Seq<(String, (i64, i64))>,
    row: (String, (i64, i64)),
)
    requires
        selected(index, c) matches Some(e) && e == (row.0@, row.1),
    ensures
        selected(index.insert(row.0@, row.1), c) is None,
        selected(database::index_of_rows(rows.push(row)), c) is None,
{
    assert(rows.push(row).drop_last() =~= rows);
}

/// The value of the last tag of a kind.
pub open spec fn last_tag(tags: Seq<Tag>, kind: TagKind) -> Option<String>
    decreases tags.len(),
{
    if tags.len() == 0 {
        None
    } else if tags.last().kind == kind {
        Some(tags.last().value)
    } else {
        last_tag(tags.drop_last(), kind)
    }
}

/// The duration of a recording, in seconds: its number of frames, where it says, divided by its
/// sample rate; zero where it does not.
pub open spec fn duration_of(params: CodecParams) -> u64 {
    match params.n_frames {
        Some(n) => rounding::quotient_bits(
            n as nat,
            match params.sample_rate {
                Some(rate) => rate as nat,
                None => DEFAULT_SAMPLE_RATE as nat,
            },
        ) as u64,
        None => 0,
    }
}

/// Whether a file with this name, and this extension in lower case, is taken for an audio file.
pub fn is_audio(name: &str, lower_ext: &str) -> (r: bool)
    ensures
        r == is_audio_name(name@, lower_ext@),
{
    let chars: Vec<char> = chars_of(name);
    if chars.len() > 0 && chars[0] == '.' {
        return false;
    }
    same_text(lower_ext, "wav") || same_text(lower_ext, "mp3") || same_text(lower_ext, "flac")
        || same_text(lower_ext, "aif") || same_text(lower_ext, "aiff") || same_text(
        lower_ext,
        "m4a",
    ) || same_text(lower_ext, "ogg") || same_text(lower_ext, "wma") || same_text(lower_ext, "mid")
        || same_text(lower_ext, "midi") || same_text(lower_ext, "aac")
}

/// The kind of source that an extension in lower case stands for.
pub fn source_kind(lower_ext: &str) -> (r: SourceKind)
    ensures
        r == kind_of_extension(lower_ext@),
        r == SourceKind::Midi <==> lower_ext@ == "mid"@ || lower_ext@ == "midi"@,
{
    if same_text(lower_ext, "mid") || same_text(lower_ext, "midi") {
        SourceKind::Midi
    } else {
        SourceKind::Recording
    }
}

/// The extension of a path, empty where there is none.
fn extension_or_empty(path: &str) -> (r: String)
    ensures
        r@ == or_empty(paths::extension(path@)),
{
    match extension_of(path) {
        Some(ext) => ext,
        None => String::new(),
    }
}

/// The kind of source at a path.
pub fn source_kind_of(path: &str) -> (r: SourceKind)
    ensures
        r == kind_of_path(path@),
        r == SourceKind::Midi <==> (paths::extension(path@) matches Some(ext) && (text::lowercase(
            ext,
        ) == "mid"@ || text::lowercase(ext) == "midi"@)),
{
    let ext: String = extension_or_empty(path);
    proof {
        no_extension_is_no_audio_file();
    }
    source_kind(ext.as_str().to_lowercase().as_str())
}

impl Candidate {
    /// The candidate at a path.
    pub fn at_path(path: &str, is_file: bool, modified: Option<u64>, len: u64) -> (r: Self)
        ensures
            r.path@ == path@,
            r.name@ == or_empty(paths::file_name(path@)),
            r.extension@ == or_empty(paths::extension(path@)),
            paths::file_name(path@) matches Some(name) ==> r.name@ == name,
            paths::file_name(path@) is None ==> r.name@.len() == 0,
            paths::extension(path@) matches Some(ext) ==> r.extension@ == ext,
            paths::extension(path@) is None ==> r.extension@.len() == 0,
            r.is_file == is_file,
            r.modified == modified,
            r.len == len,
    {
        let name: String = match file_name_of(path) {
            Some(name) => name,
            None => String::new(),
        };
        Candidate {
            path: path.to_owned(),
            name,
            extension: extension_or_empty(path),
            is_file,
            modified,
            len,
        }
    }
}

/// The records that were found, in the order in which the results came in.
pub open spec fn found(results: Seq<Option<TrackData>>) -> Seq<TrackData>
    decreases results.len(),
{
    if results.len() == 0 {
        Seq::empty()
    } else {
        match results.last() {
            Some(d) => found(results.drop_last()).push(d),
            None => found(results.drop_last()),
        }
    }
}

/// The batch after a result came in.
pub open spec fn batch_with(batch: Seq<TrackData>, result: Option<TrackData>) -> Seq<TrackData> {
    match result {
        Some(d) => batch.push(d),
        None => batch,
    }
}

/// A batch is to be saved after this result came in.
pub open spec fn is_due(batch: Seq<TrackData>, result: Option<TrackData>) -> bool {
    result is Some && batch_with(batch, result).len() >= BATCH_SIZE
}

/// What has been handed over to be saved, and what waits in the batch, after results came in:
/// `open[i]` says whether the store could be reached after result `i`, if a batch was due then.
pub open spec fn handed_over_and_waiting(results: Seq<Option<TrackData>>, open: Seq<bool>) -> (
    Seq<TrackData>,
    Seq<TrackData>,
)
    decreases results.len(),
{
    if results.len() == 0 {
        (Seq::empty(), Seq::empty())
    } else {
        let (saved, waiting) = handed_over_and_waiting(results.drop_last(), open.drop_last());
        let batch = batch_with(waiting, results.last());
        if is_due(waiting, results.last()) && open.last() {
            (saved + batch, Seq::empty())
        } else {
            (saved, batch)
        }
    }
}

/// No record is dropped and none is handed over twice: what has been handed over to be saved,
/// followed by what waits, is what was found, in the same order. Where the store can always be
/// reached, fewer records wait than make a batch, and whole batches have been handed over.
pub proof fn every_record_is_handed_over_once(results: Seq<Option<TrackData>>, open: Seq<bool>)
    requires
        open.len() == results.len(),
    ensures
        handed_over_and_waiting(results, open).0 + handed_over_and_waiting(results, open).1
            == found(results),
        (forall|i: int| 0 <= i < open.len() ==> open[i]) ==> {
            &&& handed_over_and_waiting(results, open).1.len() < BATCH_SIZE
            &&& handed_over_and_waiting(results, open).0.len() % BATCH_SIZE as nat == 0
        },
    decreases results.len(),
{
    if results.len() > 0 {
        let front = results.drop_last();
        every_record_is_handed_over_once(front, open.drop_last());
        let (saved, waiting) = handed_over_and_waiting(front, open.drop_last());
        let (saved2, waiting2) = handed_over_and_waiting(results, open);
        if let Some(d) = results.last() {
            assert(saved + waiting.push(d) =~= (saved + waiting).push(d));
        }
        assert(saved2 + waiting2 =~= found(results));
        if forall|i: int| 0 <= i < open.len() ==> open[i] {
            assert forall|i: int| 0 <= i < open.drop_last().len() implies open.drop_last()[i] by {
                assert(open[i]);
            }
            assert(open[open.len() - 1]);
        }
    } else {
        assert(handed_over_and_waiting(results, open).0 + handed_over_and_waiting(results, open).1 =~= found(
            results,
        ));
    }
}

/// What is handed over after the last result, where anything waits.
pub open spec fn last_batch_of(waiting: Seq<TrackData>) -> Option<Seq<TrackData>> {
    if waiting.len() > 0 {
        Some(waiting)
    } else {
        None
    }
}

/// All that a scan hands over to be saved: the batches that were due and could be handed over, and
/// after the last result what still waits.
pub open spec fn handed_over_in_all(results: Seq<Option<TrackData>>, open: Seq<bool>) -> Seq<
    TrackData,
> {
    let (batches, waiting) = handed_over_and_waiting(results, open);
    match last_batch_of(waiting) {
        Some(last) => batches + last,
        None => batches,
    }
}

/// A scan hands over every record that was found, once and in order, whatever their number: a last
/// batch that is not full is handed over too.
pub proof fn a_scan_hands_over_all_that_was_found(
    results: Seq<Option<TrackData>>,
    open: Seq<bool>,
)
    requires
        open.len() == results.len(),
    ensures
        handed_over_in_all(results, open) == found(results),
{
    every_record_is_handed_over_once(results, open);
    let (batches, waiting) = handed_over_and_waiting(results, open);
    if waiting.len() == 0 {
        assert(batches + waiting =~= batches);
    }
}

/// The text that stands for a result in a report.
pub open spec fn label_of(result: Option<TrackData>) -> Seq<char> {
    match result {
        Some(d) => d.path@,
        None => "Error"@,
    }
}

/// A report is made after `current` of `total` results: the last report was made long enough ago, or
/// this result is the last one.
pub open spec fn is_reported(total: nat, current: nat, elapsed_ms: u128) -> bool {
    elapsed_ms >= REPORT_INTERVAL || current == total
}

/// What a report of the analysis says.
pub struct Report {
    pub total: nat,
    pub current: nat,
    pub path: Seq<char>,
}

/// The reports that are made while results come in, where `elapsed_ms[i]` is the time since the last
/// report when result `i` came in.
pub open spec fn reports(
    total: nat,
    results: Seq<Option<TrackData>>,
    elapsed_ms: Seq<u128>,
) -> Seq<Report>
    decreases results.len(),
{
    if results.len() == 0 {
        Seq::empty()
    } else {
        let before = reports(total, results.drop_last(), elapsed_ms.drop_last());
        let current = results.len();
        if is_reported(total, current, elapsed_ms.last()) {
            before.push(Report { total, current, path: label_of(results.last()) })
        } else {
            before
        }
    }
}

/// The reports of a scan go on: each tells the number of files that are analysed, each tells of more
/// results than the one before, and after the last result the last one tells that all are in.
pub proof fn reports_go_on_to_the_end(
    total: nat,
    results: Seq<Option<TrackData>>,
    elapsed_ms: Seq<u128>,
)
    requires
        elapsed_ms.len() == results.len(),
    ensures
        ({
            let made = reports(total, results, elapsed_ms);
            &&& forall|i: int|
                0 <= i < made.len() ==> (#[trigger] made[i]).total == total && 0 < made[i].current
                    <= results.len() && made[i].path == label_of(results[made[i].current - 1])
            &&& forall|i: int, j: int|
                0 <= i < j < made.len() ==> (#[trigger] made[i]).current < (
                #[trigger] made[j]).current
            &&& 0 < total == results.len() ==> made.len() > 0 && made.last().current == total
        }),
    decreases results.len(),
{
    if results.len() > 0 {
        let front = results.drop_last();
        reports_go_on_to_the_end(total, front, elapsed_ms.drop_last());
        let before = reports(total, front, elapsed_ms.drop_last());
        let made = reports(total, results, elapsed_ms);
        assert forall|i: int| 0 <= i < made.len() implies (#[trigger] made[i]).total == total && 0
            < made[i].current <= results.len() && made[i].path == label_of(
            results[made[i].current - 1],
        ) by {
            if i < before.len() {
                assert(made[i] == before[i]);
                assert(front[made[i].current - 1] == results[made[i].current - 1]);
            }
        }
        assert forall|i: int, j: int| 0 <= i < j < made.len() implies (#[trigger] made[i]).current
            < (#[trigger] made[j]).current by {
            assert(made[i] == before[i]);
            if j < before.len() {
                assert(made[j] == before[j]);
            }
        }
    }
}

/// The gathering of the results of a scan. `total` is the number of files that are analysed,
/// `current` the number of results that have come in, `batch` what is to be saved, and `label` the
/// path of the file whose result came in last.
pub struct Scanner {
    pub total: usize,
    pub current: usize,
    pub batch: Vec<TrackData>,
    pub label: String,
}

impl Scanner {
    /// A scan of which no result has come in.
    pub fn new(total: usize) -> (r: Self)
        ensures
            r.total == total,
            r.current == 0,
            r.batch@ == Seq::<TrackData>::empty(),
            r.label@ == ""@,
    {
        Scanner { total, current: 0, batch: Vec::new(), label: "".to_owned() }
    }

    /// Whether the file at a path is taken for an audio file.
    pub fn is_audio_file(path: &str) -> (r: bool)
        ensures
            r == is_audio_path(path@),
    {
        let name: String = match file_name_of(path) {
            Some(name) => name,
            None => String::new(),
        };
        let ext: String = extension_or_empty(path);
        is_audio(name.as_str(), ext.as_str().to_lowercase().as_str())
    }

    /// The entry that is to be analysed for a candidate, if any.
    pub fn select(index: &MetadataIndex, c: &Candidate) -> (r: Option<Entry>)
        ensures
            match r {
                Some(e) => selected(index@, *c) == Some((e.path@, (e.mtime, e.size))),
                None => selected(index@, *c) is None,
            },
    {
        if !c.is_file || !is_audio(c.name.as_str(), c.extension.as_str().to_lowercase().as_str()) {
            return None;
        }
        let secs: u64 = match c.modified {
            Some(secs) => secs,
            None => return None,
        };
        let mtime: i64 = secs as i64;
        let size: i64 = c.len as i64;
        if let Some((old_mtime, old_size)) = index.get(c.path.as_str()) {
            if old_mtime == mtime && old_size == size {
                return None;
            }
        }
        Some(Entry { path: c.path.clone(), mtime, size })
    }

    /// What is reported before the files are looked for.
    pub fn looking() -> (r: ScanProgress)
        ensures
            r.total == 0,
            r.current == 0,
            r.path@ == "Indexing directory files..."@,
            r.stage@ == "Scanning"@,
            is_stage(r.stage@),
    {
        ScanProgress {
            total: 0,
            current: 0,
            path: "Indexing directory files...".to_owned(),
            stage: "Scanning".to_owned(),
        }
    }

    /// What is reported at once where there is nothing to analyse.
    pub fn nothing_to_do(&self) -> (r: Option<ScanProgress>)
        ensures
            r is Some <==> self.total == 0,
            r matches Some(p) ==> {
                &&& p.total == 0
                &&& p.current == 0
                &&& p.path@ == "All files up to date"@
                &&& p.stage@ == "Scanning"@
                &&& is_stage(p.stage@)
            },
    {
        if self.total == 0 {
            Some(
                ScanProgress {
                    total: 0,
                    current: 0,
                    path: "All files up to date".to_owned(),
                    stage: "Scanning".to_owned(),
                },
            )
        } else {
            None
        }
    }

    /// Takes in the result of an analysis, and tells whether the batch is to be saved now.
    pub fn record(&mut self, result: Option<TrackData>) -> (due: bool)
        requires
            old(self).current < usize::MAX,
        ensures
            final(self).total == old(self).total,
            final(self).current == old(self).current + 1,
            final(self).batch@ == batch_with(old(self).batch@, result),
            final(self).label@ == label_of(result),
            result matches Some(d) ==> final(self).label@ == d.path@ && final(self).batch@
                == old(self).batch@.push(d),
            result is None ==> final(self).label@ == "Error"@ && final(self).batch@ == old(
                self,
            ).batch@,
            due <==> result is Some && old(self).batch@.len() + 1 >= 50,
            due == is_due(old(self).batch@, result),
    {
        self.current = self.current + 1;
        match result {
            Some(data) => {
                self.label = data.path.clone();
                self.batch.push(data);
                self.batch.len() >= BATCH_SIZE
            },
            None => {
                self.label = "Error".to_owned();
                false
            },
        }
    }

    /// Hands the batch over to be saved.
    pub fn take_batch(&mut self) -> (r: Vec<TrackData>)
        ensures
            r@ == old(self).batch@,
            final(self).batch@ == Seq::<TrackData>::empty(),
            final(self).total == old(self).total,
            final(self).current == old(self).current,
            final(self).label == old(self).label,
    {
        let mut out: Vec<TrackData> = Vec::new();
        std::mem::swap(&mut out, &mut self.batch);
        out
    }

    /// Hands over what waits after the last result, where anything does.
    pub fn last_batch(&mut self) -> (r: Option<Vec<TrackData>>)
        ensures
            match r {
                Some(batch) => last_batch_of(old(self).batch@) == Some(batch@),
                None => last_batch_of(old(self).batch@) is None,
            },
            final(self).batch@ == Seq::<TrackData>::empty(),
            final(self).total == old(self).total,
            final(self).current == old(self).current,
            final(self).label == old(self).label,
    {
        let batch: Vec<TrackData> = self.take_batch();
        if batch.len() > 0 {
            Some(batch)
        } else {
            None
        }
    }

    /// What is reported after a result, where it is the last one or the last report was made long
    /// enough ago.
    pub fn progress(&self, elapsed_ms: u128) -> (r: Option<ScanProgress>)
        ensures
            r is Some <==> is_reported(self.total as nat, self.current as nat, elapsed_ms),
            r is Some <==> elapsed_ms >= 100 || self.current == self.total,
            r matches Some(p) ==> {
                &&& p.total == self.total
                &&& p.current == self.current
                &&& p.path@ == self.label@
                &&& p.stage@ == "Analyzing"@
                &&& is_stage(p.stage@)
            },
    {
        if elapsed_ms >= REPORT_INTERVAL || self.current == self.total {
            Some(
                ScanProgress {
                    total: self.total,
                    current: self.current,
                    path: self.label.clone(),
                    stage: "Analyzing".to_owned(),
                },
            )
        } else {
            None
        }
    }

    /// Whether all results have come in.
    pub fn is_finished(&self) -> (r: bool)
        ensures
            r == (self.current >= self.total),
    {
        self.current >= self.total
    }

    /// What an analysis makes of a score: it lasts as long as its performance, and sounds as the
    /// synthesizer renders it.
    pub fn analyze_midi(path: &str, mtime: i64, size: i64, duration: u64) -> (r: TrackData)
        ensures
            r.path@ == path@,
            r.mtime == mtime,
            r.size == size,
            r.title is None && r.artist is None && r.album is None && r.genre is None,
            r.duration == duration,
            r.sample_rate == Some(DEFAULT_SAMPLE_RATE),
            r.bit_depth == Some(16u32),
            r.channels == Some(2u16),
            r.comment is None,
            r.waveform matches Some(w) && w@ == Seq::<u8>::empty(),
    {
        TrackData {
            path: path.to_owned(),
            mtime,
            size,
            title: None,
            artist: None,
            album: None,
            genre: None,
            duration,
            sample_rate: Some(DEFAULT_SAMPLE_RATE),
            bit_depth: Some(16),
            channels: Some(2),
            comment: None,
            waveform: Some(Vec::new()),
        }
    }

    /// What an analysis makes of a recording: of several tags of a kind, the last one counts.
    pub fn analyze_file(
        path: &str,
        mtime: i64,
        size: i64,
        tags: Vec<Tag>,
        params: CodecParams,
        waveform: Vec<u8>,
    ) -> (r: TrackData)
        ensures
            r.path@ == path@,
            r.mtime == mtime,
            r.size == size,
            r.title == last_tag(tags@, TagKind::TrackTitle),
            r.artist == last_tag(tags@, TagKind::Artist),
            r.album == last_tag(tags@, TagKind::Album),
            r.genre == last_tag(tags@, TagKind::Genre),
            r.duration == duration_of(params),
            r.sample_rate == params.sample_rate,
            r.bit_depth == params.bits_per_sample,
            r.channels == match params.channels {
                Some(n) => Some(n as u16),
                None => None,
            },
            r.comment == last_tag(tags@, TagKind::Comment),
            r.waveform == Some(waveform),
    {
        let mut title: Option<String> = None;
        let mut artist: Option<String> = None;
        let mut album: Option<String> = None;
        let mut genre: Option<String> = None;
        let mut comment: Option<String> = None;
        for tag in it: tags
            invariant
                it.seq() == tags@,
                title == last_tag(tags@.take(it.index() as int), TagKind::TrackTitle),
                artist == last_tag(tags@.take(it.index() as int), TagKind::Artist),
                album == last_tag(tags@.take(it.index() as int), TagKind::Album),
                genre == last_tag(tags@.take(it.index() as int), TagKind::Genre),
                comment == last_tag(tags@.take(it.index() as int), TagKind::Comment),
        {
            proof {
                let n = it.index() as int;
                assert(tags@.take(n + 1).drop_last() =~= tags@.take(n));
            }
            match tag.kind {
                TagKind::TrackTitle => {
                    title = Some(tag.value);
                },
                TagKind::Artist => {
                    artist = Some(tag.value);
                },
                TagKind::Album => {
                    album = Some(tag.value);
                },
                TagKind::Genre => {
                    genre = Some(tag.value);
                },
                TagKind::Comment => {
                    comment = Some(tag.value);
                },
                TagKind::Other => {},
            }
        }
        assert(tags@.take(tags@.len() as int) =~= tags@);
        let rate: u32 = match params.sample_rate {
            Some(rate) => rate,
            None => DEFAULT_SAMPLE_RATE,
        };
        let duration: u64 = match params.n_frames {
            Some(n) => divide_to_bits(n, rate),
            None => 0,
        };
        let channels: Option<u16> = match params.channels {
            Some(n) => Some(n as u16),
            None => None,
        };
        TrackData {
            path: path.to_owned(),
            mtime,
            size,
            title,
            artist,
            album,
            genre,
            duration,
            sample_rate: params.sample_rate,
            bit_depth: params.bits_per_sample,
            channels,
            comment,
            waveform: Some(waveform),
        }
    }
}

/// The files that are taken for audio files are those with one of eleven extensions, in whatever
/// case, that are not hidden.
pub proof fn audio_files_are_told_by_their_names(path: Seq<char>)
    ensures
        is_audio_path(path) <==> {
            &&& paths::file_name(path) matches Some(name) ==> name.len() == 0 || name[0] != '.'
            &&& paths::extension(path) matches Some(ext) && {
                let lower = text::lowercase(ext);
                ||| lower == "wav"@
                ||| lower == "mp3"@
                ||| lower == "flac"@
                ||| lower == "aif"@
                ||| lower == "aiff"@
                ||| lower == "m4a"@
                ||| lower == "ogg"@
                ||| lower == "wma"@
                ||| lower == "mid"@
                ||| lower == "midi"@
                ||| lower == "aac"@
            }
        },
{
    no_extension_is_no_audio_file();
}

proof fn no_extension_is_no_audio_file()
    ensures
        text::lowercase(Seq::<char>::empty()) == Seq::<char>::empty(),
        !is_audio_extension(Seq::<char>::empty()),
        kind_of_extension(Seq::<char>::empty()) == SourceKind::Recording,
{
    text::lowercase_keeps_texts(Seq::<char>::empty());
    assert(text::lowercase(Seq::<char>::empty()) =~= Seq::<char>::empty());
    reveal_strlit("wav");
    reveal_strlit("mp3");
    reveal_strlit("flac");
    reveal_strlit("aif");
    reveal_strlit("aiff");
    reveal_strlit("m4a");
    reveal_strlit("ogg");
    reveal_strlit("wma");
    reveal_strlit("mid");
    reveal_strlit("midi");
    reveal_strlit("aac");
}

/// A path is that of a score exactly if its extension is `mid` or `midi`, in whatever case; every
/// other audio file is a recording.
pub proof fn scores_are_told_by_their_extension(path: Seq<char>)
    ensures
        kind_of_path(path) == SourceKind::Midi <==> (paths::extension(path) matches Some(ext) && (
        text::lowercase(ext) == "mid"@ || text::lowercase(ext) == "midi"@)),
        kind_of_path(path) != SourceKind::Midi <==> kind_of_path(path) == SourceKind::Recording,
        kind_of_extension("mid"@) == SourceKind::Midi,
        kind_of_extension("midi"@) == SourceKind::Midi,
        kind_of_extension("wav"@) == SourceKind::Recording,
        kind_of_extension("mp3"@) == SourceKind::Recording,
        kind_of_extension("flac"@) == SourceKind::Recording,
        kind_of_extension("aif"@) == SourceKind::Recording,
        kind_of_extension("aiff"@) == SourceKind::Recording,
        kind_of_extension("m4a"@) == SourceKind::Recording,
        kind_of_extension("ogg"@) == SourceKind::Recording,
        kind_of_extension("wma"@) == SourceKind::Recording,
        kind_of_extension("aac"@) == SourceKind::Recording,
{
    no_extension_is_no_audio_file();
    reveal_strlit("wav");
    reveal_strlit("mp3");
    reveal_strlit("flac");
    reveal_strlit("aif");
    reveal_strlit("aiff");
    reveal_strlit("m4a");
    reveal_strlit("ogg");
    reveal_strlit("wma");
    reveal_strlit("mid");
    reveal_strlit("midi");
    reveal_strlit("aac");
    assert("mid"@[1] == 'i' && "midi"@[1] == 'i' && "mp3"@[1] == 'p' && "m4a"@[1] == '4');
    assert("mid"@[0] == 'm' && "midi"@[0] == 'm');
    assert("wav"@[0] == 'w' && "flac"@[0] == 'f' && "aif"@[0] == 'a' && "aiff"@[0] == 'a');
    assert("ogg"@[0] == 'o' && "wma"@[0] == 'w' && "aac"@[0] == 'a');
}

/// What is selected for analysis: every file that is an audio file and whose time is known, unless
/// the catalogue holds its path with that time and that size; and it is selected with these.
pub proof fn what_is_new_or_changed_is_selected(index: Map<Seq<char>, (i64, i64)>, c: Candidate)
    ensures
        selected(index, c) is Some <==> {
            &&& c.is_file
            &&& c.name@.len() == 0 || c.name@[0] != '.'
            &&& is_audio_extension(text::lowercase(c.extension@))
            &&& c.modified matches Some(secs) && !(index.contains_key(c.path@)
                && index[c.path@].0 == secs as i64 && index[c.path@].1 == c.len as i64)
        },
        selected(index, c) matches Some(e) ==> {
            &&& e.0 == c.path@
            &&& c.modified matches Some(secs) ==> secs < 0x8000_0000_0000_0000 ==> e.1.0 == secs
            &&& c.len < 0x8000_0000_0000_0000 ==> e.1.1 == c.len
        },
{
}

/// Of the tags of a kind the last one counts, and a kind without a tag has no value.
pub proof fn the_last_tag_counts(tags: Seq<Tag>, kind: TagKind)
    ensures
        match last_tag(tags, kind) {
            Some(value) => exists|i: int|
                0 <= i < tags.len() && (#[trigger] tags[i]).kind == kind && tags[i].value == value
                    && forall|j: int| i < j < tags.len() ==> (#[trigger] tags[j]).kind != kind,
            None => forall|i: int| 0 <= i < tags.len() ==> (#[trigger] tags[i]).kind != kind,
        },
    decreases tags.len(),
{
    if tags.len() > 0 {
        let front = tags.drop_last();
        let last = tags.len() - 1;
        the_last_tag_counts(front, kind);
        if tags[last].kind != kind {
            match last_tag(front, kind) {
                Some(value) => {
                    let i = choose|i: int|
                        0 <= i < front.len() && (#[trigger] front[i]).kind == kind && front[i].value
                            == value && forall|j: int|
                            i < j < front.len() ==> (#[trigger] front[j]).kind != kind;
                    assert(tags[i] == front[i]);
                    assert forall|j: int| i < j < tags.len() implies (#[trigger] tags[j]).kind
                        != kind by {
                        if j < last {
                            assert(front[j] == tags[j]);
                        }
                    }
                },
                None => {
                    assert forall|i: int| 0 <= i < tags.len() implies (#[trigger] tags[i]).kind
                        != kind by {
                        if i < last {
                            assert(front[i] == tags[i]);
                        }
                    }
                },
            }
        }
    }
}

/// The duration of a recording is its number of frames divided by its own sample rate: it is the
/// double-precision number nearest to the quotient of the number of frames, itself taken in double
/// precision as by an analysis at one frame a second, by the rate. Numbers are counted in units of
/// the least positive one.
pub proof fn durations_are_frames_by_rate(params: CodecParams, n: u64, rate: u32, other: nat)
    requires
        params.n_frames == Some(n),
        params.sample_rate == Some(rate),
        n > 0,
        rate > 0,
    ensures
        ({
            let frames = rounding::units(
                duration_of(CodecParams { sample_rate: Some(1), ..params }) as nat,
            );
            let seconds = rounding::units(duration_of(params) as nat);
            &&& duration_of(params) < 0x7ff0_0000_0000_0000
            &&& rounding::distance(frames, n as nat * pow2(1074)) <= rounding::distance(
                rounding::units(other),
                n as nat * pow2(1074),
            )
            &&& n < 0x20_0000_0000_0000 ==> frames == n as nat * pow2(1074)
            &&& rounding::distance(seconds * rate as nat, frames) <= rounding::distance(
                rounding::units(other) * rate as nat,
                frames,
            )
        }),
{
    rounding::quotients_are_nearest(n as nat, rate as nat, other);
    rounding::quotients_are_nearest(n as nat, 1, other);
}

/// A recording of a whole number of seconds lasts exactly that number, whatever its sample rate.
pub proof fn whole_durations_are_exact(params: CodecParams, seconds: nat, rate: u32)
    requires
        params.sample_rate == Some(rate),
        params.n_frames matches Some(n) && n == seconds * rate,
        0 < seconds,
        0 < rate,
        seconds * rate < 0x20_0000_0000_0000,
    ensures
        rounding::units(duration_of(params) as nat) == seconds * pow2(1074),
        duration_of(params) < 0x7ff0_0000_0000_0000,
{
    let n = seconds * rate as nat;
    assert(n > 0) by (nonlinear_arith)
        requires
            n == seconds * rate as nat,
            seconds > 0,
            rate > 0,
    ;
    rounding::whole_quotients_are_exact(seconds, rate as nat);
    rounding::quotients_are_nearest(n, rate as nat, 0);
}

/// A recording that does not say its sample rate is taken to have 44100 frames a second, one that
/// does not say its number of frames lasts no time, nor does one without frames, and one that says
/// that no frame is played in a second never ends.
pub proof fn durations_without_frames_or_rate(params: CodecParams)
    ensures
        params.n_frames is None ==> duration_of(params) == 0,
        params.sample_rate is None ==> duration_of(params) == duration_of(
            CodecParams { sample_rate: Some(44100), ..params },
        ),
        params.n_frames == Some(0u64) && params.sample_rate != Some(0u32) ==> duration_of(params)
            == 0,
        (params.n_frames matches Some(n) && n > 0) && params.sample_rate == Some(0u32)
            ==> duration_of(params) == 0x7ff0_0000_0000_0000,
{
}

/// What is found comes in the order of the results, and a failed analysis finds nothing.
pub proof fn found_follows_the_results(results: Seq<Option<TrackData>>, d: TrackData)
    ensures
        found(results.push(Some(d))) == found(results).push(d),
        found(results.push(None)) == found(results),
        found(Seq::<Option<TrackData>>::empty()) == Seq::<TrackData>::empty(),
{
    assert(results.push(Some(d)).drop_last() =~= results);
    assert(results.push(None).drop_last() =~= results);
}

} // verus!
