//! Diarization by local speaker embeddings.
//!
//! The microphone is the local user. The loopback is cut into windows; each window is
//! attributed by the similarity of its embedding to the known speakers, and the transcript
//! segments are split and attributed by the windows they lie on. The embeddings come from
//! an ONNX model outside of this module: `plan_windows` says which stretches of audio are
//! to be embedded, and `diarize_windows` takes the embeddings from there.
use vstd::prelude::*;
use vstd::string::StringExecFns;
use crate::float32::Float32;
use crate::meeting::chunk::RATE_16K_BITS;
use crate::meeting::data::{clone_optional, AudioSource, TranscriptSegment};
use crate::meeting::diarization::clusters::{
    add_speaker, first_attribution, promote, promoted, provisional, refresh, refreshed,
    with_speaker, Knowledge, Matching,
};
use crate::meeting::diarization::plan::{
    hop_ms, plan, samples_of_ms, samples_of_secs, window_length, window_starts, windows_on,
    PlannedWindow, FOUR_BITS, HOP_MAX_MS, HOP_MIN_MS, THOUSAND_BITS,
};
use crate::meeting::diarization::speaker_laws::{
    law_promotion_keeps_speakers, law_refreshing_keeps_speakers,
};
use crate::meeting::diarization::split::{
    absorb, absorbed, split_all, split_by_runs, split_segment, split_segments,
};
use crate::meeting::diarization::vectors::{
    best_match, centroid_views, copy_vector, find_best, zero, CentroidView, SpeakerCentroid, ONE_BITS,
};
use crate::meeting::diarization::windows::{
    dominant, find_dominant, range_scores, range_speaker, smooth, smoothed, speaker_for_range,
    speaker_scores, window_views, SpeakerWindow, WindowView,
};
use crate::meeting::diarization::{
    all_by, attribute_all, diarized_views, DiarizationConfig, DiarizedSegment, DiarizedView,
    Speaker, SpeakerId,
};
use crate::text::{same_text, texts, trim, trimmed};

verus! {

/// The most threads that the embedding model runs on.
pub const MAX_THREADS: usize = 4;

/// The number of processors, from `num_cpus::get`. Claimed is what its documentation says:
/// at least one. How many there are depends on the machine.
#[verifier::external_body]
fn cpus() -> (r: usize)
    ensures
        r >= 1,
{
    num_cpus::get()
}

/// `n` is a number of processors that the machine reported.
pub closed spec fn reported_cpus(n: usize) -> bool {
    call_ensures(cpus, (), n)
}

/// The number of threads for a machine with the given number of processors.
pub fn threads_for(cpus: usize) -> (r: usize)
    ensures
        r == if cpus < MAX_THREADS {
            cpus
        } else {
            MAX_THREADS
        },
{
    if cpus < MAX_THREADS {
        cpus
    } else {
        MAX_THREADS
    }
}

/// The number of threads that the embedding model runs on here.
pub fn model_threads() -> (r: usize)
    ensures
        1 <= r <= MAX_THREADS,
        exists|n: usize|
            #[trigger] reported_cpus(n) && r == if n < MAX_THREADS {
                n
            } else {
                MAX_THREADS
            },
{
    let n: usize = cpus();
    assert(reported_cpus(n));
    threads_for(n)
}

/// Why there is no embedding of a stretch of audio.
#[derive(Clone, Copy, Debug, PartialEq, Eq, Structural)]
pub enum EmbeddingError {
    /// There is less audio than the shortest segment.
    TooShort,
    /// The filterbank found no frame.
    NoFrames,
    /// The model is not loaded.
    NotLoaded,
    /// The model has no output with embeddings.
    NoOutput,
}

impl EmbeddingError {
    pub open spec fn text(self) -> Seq<char> {
        match self {
            EmbeddingError::TooShort => "audio too short for embedding extraction"@,
            EmbeddingError::NoFrames => "audio too short for filterbank extraction"@,
            EmbeddingError::NotLoaded => "speaker embedding model not loaded"@,
            EmbeddingError::NoOutput => "No embedding output found in ONNX model"@,
        }
    }

    /// The error in words.
    pub fn message(self) -> (r: String)
        ensures
            r@ == self.text(),
    {
        match self {
            EmbeddingError::TooShort => "audio too short for embedding extraction".to_owned(),
            EmbeddingError::NoFrames => "audio too short for filterbank extraction".to_owned(),
            EmbeddingError::NotLoaded => "speaker embedding model not loaded".to_owned(),
            EmbeddingError::NoOutput => "No embedding output found in ONNX model".to_owned(),
        }
    }
}

/// The name of the output with the embeddings: the first of three known names that the
/// model has.
pub open spec fn output_name(names: Seq<Seq<char>>) -> Option<Seq<char>> {
    if names.contains("embs"@) {
        Some("embs"@)
    } else if names.contains("embedding"@) {
        Some("embedding"@)
    } else if names.contains("output"@) {
        Some("output"@)
    } else {
        None
    }
}

fn has_name(names: &Vec<String>, name: &str) -> (r: bool)
    ensures
        r == texts(names@).contains(name@),
{
    let ghost all = texts(names@);
    let mut i: usize = 0;
    while i < names.len()
        invariant
            i <= names.len(),
            all == texts(names@),
            forall|j: int| #![trigger all[j]] 0 <= j < i ==> all[j] != name@,
        decreases names.len() - i,
    {
        assert(all[i as int] == names@[i as int]@);
        if same_text(&names[i], name) {
            return true;
        }
        i = i + 1;
    }
    false
}

/// Picks the output with the embeddings among the outputs of the model.
pub fn embedding_output(names: &Vec<String>) -> (r: Result<String, EmbeddingError>)
    ensures
        match (r, output_name(texts(names@))) {
            (Ok(a), Some(b)) => a@ == b,
            (Err(e), None) => e == EmbeddingError::NoOutput,
            _ => false,
        },
{
    if has_name(names, "embs") {
        Ok("embs".to_owned())
    } else if has_name(names, "embedding") {
        Ok("embedding".to_owned())
    } else if has_name(names, "output") {
        Ok("output".to_owned())
    } else {
        Err(EmbeddingError::NoOutput)
    }
}

/// Where the file of a model lies.
#[derive(Debug)]
pub enum ModelFile {
    /// At this path.
    At(String),
    /// At this path below the directory of models.
    InModels(String),
}

/// The model that a configured name stands for: a blank name for the default model.
pub open spec fn model_for(name: Seq<char>) -> Seq<char> {
    if trimmed(name).len() == 0 {
        "wespeaker-resnet221-lm"@
    } else {
        name
    }
}

/// Where the file of a model lies below the directory of models; a model that is not known
/// has the file of the default one.
pub open spec fn model_file(name: Seq<char>) -> Seq<char> {
    if name == "wespeaker-resnet34"@ {
        "wespeaker-resnet34/voxceleb_resnet34.onnx"@
    } else {
        "wespeaker-resnet221-lm/voxceleb_resnet221_LM.onnx"@
    }
}

/// Embeddings by what they say.
pub open spec fn embedding_views(v: Seq<Option<Vec<Float32>>>) -> Seq<Option<Seq<Float32>>> {
    v.map_values(
        |e: Option<Vec<Float32>>|
            match e {
                Some(x) => Some(x@),
                None => None,
            },
    )
}

/// The first `k` windows with their embeddings and first attributions; those without an
/// embedding are left out.
pub open spec fn labelled(
    centroids: Seq<CentroidView>,
    plan: Seq<PlannedWindow>,
    embeddings: Seq<Option<Seq<Float32>>>,
    k: int,
    confident: Float32,
) -> Seq<WindowView>
    decreases k,
{
    if k <= 0 {
        Seq::empty()
    } else {
        let prev = labelled(centroids, plan, embeddings, k - 1, confident);
        match embeddings[k - 1] {
            None => prev,
            Some(embedding) => {
                let (speaker, confidence) = provisional(centroids, embedding, confident);
                prev.push(
                    WindowView {
                        start_ms: plan[k - 1].start_ms,
                        end_ms: plan[k - 1].end_ms,
                        speaker,
                        confidence,
                        embedding,
                        initial_speaker: speaker,
                        initial_confidence: confidence,
                    },
                )
            },
        }
    }
}

/// The known speakers after a chunk of the loopback.
pub open spec fn speakers_after(
    centroids: Seq<CentroidView>,
    windows: Seq<WindowView>,
    m: Matching,
) -> Knowledge {
    let w = smoothed(windows, m.confident);
    promoted(
        Knowledge {
            centroids: refreshed(centroids, w, w.len() as int, m.confident),
            windows: w,
        },
        m,
    )
}

/// The segments of a chunk of the loopback, split and attributed.
pub open spec fn loopback_segments(
    centroids: Seq<CentroidView>,
    windows: Seq<WindowView>,
    segments: Seq<TranscriptSegment>,
    m: Matching,
) -> Seq<DiarizedView> {
    let w = smoothed(speakers_after(centroids, windows, m).windows, m.confident);
    absorbed(split_segments(segments, segments.len() as int, w, m.confident), m.confident)
}

/// Speakers are numbered by their places, and there are not more than allowed.
pub open spec fn numbered(centroids: Seq<CentroidView>, max_speakers: u32) -> bool {
    &&& centroids.len() <= max_speakers
    &&& forall|i: int|
        #![trigger centroids[i]]
        0 <= i < centroids.len() ==> centroids[i].id == i
}

/// Diarizer by local speaker embeddings.
#[derive(Debug)]
pub struct EmbeddingDiarizer {
    pub model_name: String,
    pub model_path: Option<String>,
    pub max_speakers: u32,
    pub min_segment_ms: u64,
    pub window_secs: Float32,
    pub confident_threshold: Float32,
    pub uncertain_threshold: Float32,
    /// The speakers known so far.
    pub centroids: Vec<SpeakerCentroid>,
}

impl EmbeddingDiarizer {
    /// The known speakers are numbered by their places, and not more than allowed.
    pub open spec fn wf(&self) -> bool {
        numbered(centroid_views(self.centroids@), self.max_speakers)
    }

    /// Only the known speakers differ.
    pub open spec fn same_settings(&self, other: &EmbeddingDiarizer) -> bool {
        &&& self.model_name == other.model_name
        &&& self.model_path == other.model_path
        &&& self.max_speakers == other.max_speakers
        &&& self.min_segment_ms == other.min_segment_ms
        &&& self.window_secs == other.window_secs
        &&& self.confident_threshold == other.confident_threshold
        &&& self.uncertain_threshold == other.uncertain_threshold
    }

    pub open spec fn settings(&self) -> Matching {
        Matching {
            max_speakers: self.max_speakers,
            confident: self.confident_threshold,
            uncertain: self.uncertain_threshold,
        }
    }

    /// A diarizer that knows nobody yet.
    pub fn new(config: &DiarizationConfig) -> (r: Self)
        ensures
            r.wf(),
            r.model_name == config.model,
            r.model_path == config.model_path,
            r.max_speakers == config.max_speakers,
            r.min_segment_ms == config.min_segment_ms,
            r.window_secs == config.window_secs,
            r.confident_threshold == config.confident_threshold,
            r.uncertain_threshold == config.uncertain_threshold,
            r.centroids@ == Seq::<SpeakerCentroid>::empty(),
    {
        EmbeddingDiarizer {
            model_name: config.model.clone(),
            model_path: clone_optional(&config.model_path),
            max_speakers: config.max_speakers,
            min_segment_ms: config.min_segment_ms,
            window_secs: config.window_secs,
            confident_threshold: config.confident_threshold,
            uncertain_threshold: config.uncertain_threshold,
            centroids: Vec::new(),
        }
    }

    fn matching(&self) -> (r: Matching)
        ensures
            r == self.settings(),
    {
        Matching {
            max_speakers: self.max_speakers,
            confident: self.confident_threshold,
            uncertain: self.uncertain_threshold,
        }
    }

    /// The name of the model; a blank name stands for the default model.
    pub fn resolved_model_name(&self) -> (r: String)
        ensures
            r@ == model_for(self.model_name@),
    {
        if trim(self.model_name.as_str()).as_str().is_empty() {
            "wespeaker-resnet221-lm".to_owned()
        } else {
            self.model_name.clone()
        }
    }

    /// Where the file of a model lies below the directory of models.
    pub fn default_model_path(model_name: &str) -> (r: String)
        ensures
            r@ == model_file(model_name@),
    {
        if same_text(&model_name.to_owned(), "wespeaker-resnet34") {
            "wespeaker-resnet34/voxceleb_resnet34.onnx".to_owned()
        } else {
            "wespeaker-resnet221-lm/voxceleb_resnet221_LM.onnx".to_owned()
        }
    }

    /// Where the file of the model lies: at the configured path, or below the directory of
    /// models.
    pub fn resolved_model_path(&self) -> (r: ModelFile)
        ensures
            match (self.model_path, r) {
                (Some(path), ModelFile::At(at)) => at == path,
                (None, ModelFile::InModels(path)) => path@ == model_file(
                    model_for(self.model_name@),
                ),
                _ => false,
            },
    {
        match &self.model_path {
            Some(path) => ModelFile::At(path.clone()),
            None => ModelFile::InModels(
                Self::default_model_path(self.resolved_model_name().as_str()),
            ),
        }
    }

    /// The samples of the shortest segment.
    pub fn min_segment_samples(&self) -> (r: usize)
        requires
            self.min_segment_ms * 16000 <= u64::MAX,
            samples_of_ms(self.min_segment_ms as nat) <= usize::MAX,
        ensures
            r == samples_of_ms(self.min_segment_ms as nat),
    {
        (self.min_segment_ms * 16000 / 1000) as usize
    }

    /// The time between two windows.
    pub fn speaker_hop_ms(&self) -> (r: u64)
        ensures
            r == hop_ms(self.window_secs),
    {
        let quarter: u64 = self.window_secs.mul(Float32::from_bits(THOUSAND_BITS)).div(
            Float32::from_bits(FOUR_BITS),
        ).round();
        if quarter < HOP_MIN_MS {
            HOP_MIN_MS
        } else if quarter > HOP_MAX_MS {
            HOP_MAX_MS
        } else {
            quarter
        }
    }

    /// The part of `count` samples that goes into the model: the middle, where there are
    /// more than the model takes.
    pub fn clip(&self, count: usize) -> (r: Result<(usize, usize), EmbeddingError>)
        requires
            self.min_segment_ms * 16000 <= u64::MAX,
            samples_of_ms(self.min_segment_ms as nat) <= usize::MAX,
        ensures
            ({
                let window = samples_of_secs(self.window_secs);
                if count < samples_of_ms(self.min_segment_ms as nat) {
                    r == Err::<(usize, usize), EmbeddingError>(EmbeddingError::TooShort)
                } else if count > window && window > 0 {
                    r matches Ok(part) && part.0 == (count - window) / 2 && part.1 == part.0
                        + window
                } else {
                    r == Ok::<(usize, usize), EmbeddingError>((0, count))
                }
            }),
    {
        let window: u64 = self.window_secs.mul(Float32::from_bits(RATE_16K_BITS)).truncate();
        if count < self.min_segment_samples() {
            return Err(EmbeddingError::TooShort);
        }
        if count as u64 > window && window > 0 {
            let start: usize = (count - window as usize) / 2;
            Ok((start, start + window as usize))
        } else {
            Ok((0, count))
        }
    }

    /// The most similar speaker, with the similarity.
    pub fn best_matching_centroid(&self, embedding: &Vec<Float32>) -> (r: Option<(usize, Float32)>)
        ensures
            match (r, best_match(centroid_views(self.centroids@), embedding@)) {
                (Some(a), Some(b)) => a.0 == b.0 && a.1 == b.1 && a.0 < self.centroids.len(),
                (None, None) => true,
                _ => false,
            },
    {
        find_best(&self.centroids, embedding)
    }

    /// The first attribution of a window.
    pub fn provisional_speaker_for_embedding(&self, embedding: &Vec<Float32>) -> (r: (
        SpeakerId,
        Float32,
    ))
        ensures
            (r.0@, r.1) == provisional(
                centroid_views(self.centroids@),
                embedding@,
                self.confident_threshold,
            ),
    {
        first_attribution(&self.centroids, embedding, self.confident_threshold)
    }

    /// Adds a speaker, where there is room for one.
    pub fn create_speaker(&mut self, embedding: &Vec<Float32>) -> (r: Option<SpeakerId>)
        ensures
            final(self).same_settings(old(self)),
            old(self).wf() ==> final(self).wf(),
            old(self).centroids@.len() < old(self).max_speakers ==> r == Some(
                SpeakerId::Auto(old(self).centroids@.len() as u32),
            ) && centroid_views(final(self).centroids@) == with_speaker(
                centroid_views(old(self).centroids@),
                embedding@,
            ),
            old(self).centroids@.len() >= old(self).max_speakers ==> r is None
                && final(self).centroids == old(self).centroids,
    {
        let r: Option<SpeakerId> = add_speaker(&mut self.centroids, embedding, self.max_speakers);
        assert(centroid_views(self.centroids@).len() == self.centroids@.len());
        r
    }

    /// Gives windows whose neighbours agree on another speaker to that speaker.
    pub fn smooth_windows(&self, windows: &mut Vec<SpeakerWindow>)
        ensures
            window_views(final(windows)@) == smoothed(
                window_views(old(windows)@),
                self.confident_threshold,
            ),
    {
        smooth(windows, self.confident_threshold);
    }

    /// Moves the speakers that windows matched with confidence towards their embeddings.
    pub fn refresh_matched_centroids(&mut self, windows: &Vec<SpeakerWindow>)
        ensures
            final(self).same_settings(old(self)),
            old(self).wf() ==> final(self).wf(),
            centroid_views(final(self).centroids@) == refreshed(
                centroid_views(old(self).centroids@),
                window_views(windows@),
                windows.len() as int,
                old(self).confident_threshold,
            ),
    {
        refresh(&mut self.centroids, windows, self.confident_threshold);
        proof {
            law_refreshing_keeps_speakers(
                centroid_views(old(self).centroids@),
                window_views(windows@),
                windows.len() as int,
                self.confident_threshold,
                self.max_speakers,
            );
        }
    }

    /// The speaker with the largest score in a stretch, and its share.
    pub fn dominant_speaker_for_range(
        &self,
        start_ms: u64,
        end_ms: u64,
        windows: &Vec<SpeakerWindow>,
    ) -> (r: Option<(SpeakerId, Float32)>)
        ensures
            match (r, dominant(range_scores(window_views(windows@), start_ms, end_ms))) {
                (Some(a), Some(b)) => a.0@ == b.0 && a.1 == b.1,
                (None, None) => true,
                _ => false,
            },
    {
        let scores: Vec<(SpeakerId, Float32)> = speaker_scores(start_ms, end_ms, windows);
        find_dominant(&scores)
    }

    /// Who a stretch is attributed to, with the confidence.
    pub fn segment_speaker_for_range(
        &self,
        start_ms: u64,
        end_ms: u64,
        windows: &Vec<SpeakerWindow>,
    ) -> (r: (SpeakerId, Float32))
        ensures
            (r.0@, r.1) == range_speaker(window_views(windows@), start_ms, end_ms),
    {
        speaker_for_range(start_ms, end_ms, windows)
    }

    /// Splits a segment at its speaker changes.
    pub fn split_segment_by_speaker_runs(
        &self,
        segment: &TranscriptSegment,
        windows: &Vec<SpeakerWindow>,
    ) -> (r: Vec<DiarizedSegment>)
        ensures
            diarized_views(r@) == split_segment(
                *segment,
                window_views(windows@),
                self.confident_threshold,
            ),
    {
        split_by_runs(segment, windows, self.confident_threshold)
    }

    /// Gives segments that say too little to their neighbours' speaker.
    pub fn absorb_low_information_segments(&self, segments: &mut Vec<DiarizedSegment>)
        ensures
            diarized_views(final(segments)@) == absorbed(
                diarized_views(old(segments)@),
                self.confident_threshold,
            ),
    {
        absorb(segments, self.confident_threshold);
    }

    /// Promotes runs of unattributed windows to known speakers or to new ones.
    pub fn promote_unknown_runs(&mut self, windows: &mut Vec<SpeakerWindow>)
        ensures
            final(self).same_settings(old(self)),
            old(self).wf() ==> final(self).wf(),
            promoted(
                Knowledge {
                    centroids: centroid_views(old(self).centroids@),
                    windows: window_views(old(windows)@),
                },
                old(self).settings(),
            ) == (Knowledge {
                centroids: centroid_views(final(self).centroids@),
                windows: window_views(final(windows)@),
            }),
    {
        let m: Matching = self.matching();
        proof {
            law_promotion_keeps_speakers(
                Knowledge {
                    centroids: centroid_views(self.centroids@),
                    windows: window_views(windows@),
                },
                m,
            );
        }
        promote(&mut self.centroids, windows, m);
    }

    /// Which stretches of the audio of a chunk are to be embedded: windows over the whole
    /// chunk that share time with a segment, of the loopback only.
    pub fn plan_windows(
        &self,
        count: usize,
        chunk_start_ms: u64,
        source: AudioSource,
        segments: &[TranscriptSegment],
    ) -> (r: Vec<PlannedWindow>)
        requires
            source == AudioSource::Loopback ==> self.min_segment_ms * 16000 <= u64::MAX
                && samples_of_ms(self.min_segment_ms as nat) <= usize::MAX && count * 1000
                <= u64::MAX && chunk_start_ms + count * 1000 / 16000 <= u64::MAX,
        ensures
            r@ == self.planned(count as nat, chunk_start_ms, source, segments@),
    {
        match source {
            AudioSource::Loopback => {
                let min: usize = self.min_segment_samples();
                if count == 0 || segments.len() == 0 || count < min {
                    return Vec::new();
                }
                let secs: u64 = self.window_secs.mul(
                    Float32::from_bits(RATE_16K_BITS),
                ).truncate();
                let window: u64 = if secs > min as u64 { secs } else { min as u64 };
                let hop: usize = (self.speaker_hop_ms() * 16000 / 1000) as usize;
                plan(count, window, hop, chunk_start_ms, segments)
            },
            AudioSource::Microphone => Vec::new(),
            AudioSource::Unknown => Vec::new(),
        }
    }

    /// The stretches of the audio of a chunk that are embedded.
    pub open spec fn planned(
        &self,
        count: nat,
        chunk_start_ms: u64,
        source: AudioSource,
        segments: Seq<TranscriptSegment>,
    ) -> Seq<PlannedWindow> {
        if source != AudioSource::Loopback || count == 0 || segments.len() == 0 || count
            < samples_of_ms(self.min_segment_ms as nat) {
            Seq::empty()
        } else {
            let window = window_length(self.window_secs, self.min_segment_ms as nat);
            let starts = window_starts(count, window, samples_of_ms(hop_ms(self.window_secs)));
            windows_on(starts, starts.len() as int, count, window, chunk_start_ms, segments)
        }
    }

    /// Gives windows their embeddings and their first attributions; a window without an
    /// embedding is left out.
    pub fn label_windows(
        &self,
        windows: &Vec<PlannedWindow>,
        embeddings: Vec<Option<Vec<Float32>>>,
    ) -> (r: Vec<SpeakerWindow>)
        requires
            windows.len() == embeddings.len(),
        ensures
            window_views(r@) == labelled(
                centroid_views(self.centroids@),
                windows@,
                embedding_views(embeddings@),
                windows.len() as int,
                self.confident_threshold,
            ),
    {
        let ghost c = centroid_views(self.centroids@);
        let ghost all = embedding_views(embeddings@);
        let mut out: Vec<SpeakerWindow> = Vec::new();
        let mut i: usize = 0;
        assert(window_views(out@) =~= Seq::empty());
        while i < windows.len()
            invariant
                i <= windows.len() == embeddings.len(),
                c == centroid_views(self.centroids@),
                all == embedding_views(embeddings@),
                window_views(out@) == labelled(
                    c,
                    windows@,
                    all,
                    i as int,
                    self.confident_threshold,
                ),
            decreases windows.len() - i,
        {
            if let Some(embedding) = &embeddings[i] {
                let (speaker, confidence) = self.provisional_speaker_for_embedding(embedding);
                let one = SpeakerWindow {
                    start_ms: windows[i].start_ms,
                    end_ms: windows[i].end_ms,
                    initial_speaker: speaker.clone(),
                    speaker,
                    confidence,
                    embedding: copy_vector(embedding),
                    initial_confidence: confidence,
                };
                let ghost before = window_views(out@);
                out.push(one);
                assert(all[i as int] == Some(embedding@));
                assert(window_views(out@) =~= before.push(one@));
            } else {
                assert(all[i as int] is None);
            }
            i = i + 1;
        }
        out
    }

    /// Splits and attributes the segments of a chunk of the loopback by its windows.
    pub fn diarize_loopback_segments(
        &mut self,
        windows: Vec<SpeakerWindow>,
        segments: &[TranscriptSegment],
    ) -> (r: Vec<DiarizedSegment>)
        ensures
            final(self).same_settings(old(self)),
            old(self).wf() ==> final(self).wf(),
            ({
                let c = centroid_views(old(self).centroids@);
                let w = window_views(windows@);
                let m = old(self).settings();
                &&& centroid_views(final(self).centroids@) == speakers_after(c, w, m).centroids
                &&& diarized_views(r@) == loopback_segments(c, w, segments@, m)
            }),
    {
        let mut windows = windows;
        let ghost c = centroid_views(self.centroids@);
        let ghost w = window_views(windows@);
        self.smooth_windows(&mut windows);
        self.refresh_matched_centroids(&windows);
        assert(window_views(windows@).len() == windows@.len());
        self.promote_unknown_runs(&mut windows);
        self.smooth_windows(&mut windows);
        let mut out: Vec<DiarizedSegment> = split_all(
            segments,
            &windows,
            self.confident_threshold,
        );
        self.absorb_low_information_segments(&mut out);
        out
    }

    /// Attributes the segments of a chunk. The microphone is the local user; an unknown
    /// source has no known speaker; the loopback goes by its windows.
    pub fn diarize_windows(
        &mut self,
        source: AudioSource,
        windows: Vec<SpeakerWindow>,
        segments: &[TranscriptSegment],
    ) -> (r: Vec<DiarizedSegment>)
        ensures
            final(self).same_settings(old(self)),
            old(self).wf() ==> final(self).wf(),
            ({
                let c = centroid_views(old(self).centroids@);
                let w = window_views(windows@);
                let m = old(self).settings();
                match source {
                    AudioSource::Microphone => final(self).centroids == old(self).centroids
                        && diarized_views(r@) == all_by(
                        segments@,
                        Speaker::You,
                        Float32 { bits: ONE_BITS },
                    ),
                    AudioSource::Unknown => final(self).centroids == old(self).centroids
                        && diarized_views(r@) == all_by(segments@, Speaker::Unknown, zero()),
                    AudioSource::Loopback => centroid_views(final(self).centroids@)
                        == speakers_after(c, w, m).centroids && diarized_views(r@)
                        == loopback_segments(c, w, segments@, m),
                }
            }),
    {
        match source {
            AudioSource::Microphone => attribute_all(
                segments,
                &SpeakerId::You,
                Float32::from_bits(ONE_BITS),
            ),
            AudioSource::Unknown => attribute_all(
                segments,
                &SpeakerId::Unknown,
                Float32::from_bits(0),
            ),
            AudioSource::Loopback => self.diarize_loopback_segments(windows, segments),
        }
    }

    /// The name of the backend.
    pub fn name(&self) -> (r: &'static str)
        ensures
            r@ == "embedding"@,
    {
        "embedding"
    }

    /// Forgets all speakers.
    pub fn reset(&mut self)
        ensures
            final(self).same_settings(old(self)),
            final(self).wf(),
            final(self).centroids@ == Seq::<SpeakerCentroid>::empty(),
    {
        self.centroids.clear();
    }
}

} // verus!
