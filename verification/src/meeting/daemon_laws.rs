//! What holds of a meeting, whatever is said and whoever says it.
use vstd::prelude::*;
use crate::float32::Float32;
use crate::meeting::chunk::{
    heard, id_after, law_planned_ordered, planned, ChunkContext, Transcriber,
};
use crate::meeting::chunk_laws::{
    law_identifiers_of_regions, law_segments_in_a_row, law_segments_tell_their_own_region,
    spoken_regions, tells,
};
use crate::meeting::daemon::{
    asked, chunk_config, chunk_segments, chunk_start, closed, daemon_context, finished,
    heard_all, processed, said_segments, tells_of, MeetingDaemon, MeetingError, PendingChunk,
};
use crate::meeting::data::{
    segment_views, AudioSource, MeetingData, MeetingStatus, SegmentView, TranscriptSegment,
};
use crate::meeting::diarization::{diarized_views, DiarizedSegment, DiarizedView, Diarizer};
use crate::meeting::record::{law_recording_keeps_segments, next_after, refined, with_speakers};
use crate::meeting::record_laws::{
    comes_first, law_recorded_segments_are_in_their_place, law_segments_show_their_own_speaker,
    shows, worded,
};
use crate::text::texts;

verus! {

/// Counting on from an identifier reached by counting.
pub proof fn lemma_id_after(first: u32, a: nat, b: nat)
    ensures
        id_after(id_after(first, a), b) == id_after(first, a + b),
{
    vstd::arithmetic::div_mod::lemma_add_mod_noop(
        (first + a) as int,
        b as int,
        0x1_0000_0000,
    );
    vstd::arithmetic::div_mod::lemma_add_mod_noop(
        ((first + a) as int) % 0x1_0000_0000,
        b as int,
        0x1_0000_0000,
    );
}

/// Segments that have speakers say something, come from one source and one chunk, and take
/// their identifiers one after the other.
pub proof fn law_speakers_keep_chunk(
    plain: Seq<SegmentView>,
    diarized: Seq<DiarizedView>,
    k: int,
    next: u32,
    chunk_id: u32,
    source: AudioSource,
)
    ensures
        ({
            let r = refined(plain, diarized, k, next, chunk_id, source);
            forall|i: int|
                #![trigger r[i]]
                0 <= i < r.len() ==> r[i].source == source && r[i].chunk_id == chunk_id
                    && r[i].speaker_id is Some && r[i].confidence is Some && r[i].text.len() > 0
                    && r[i].id == if i < plain.len() {
                    plain[i].id
                } else {
                    id_after(next, (i - plain.len()) as nat)
                }
        }),
    decreases k,
{
    if k > 0 {
        law_speakers_keep_chunk(plain, diarized, k - 1, next, chunk_id, source);
    }
}

/// Processing a chunk took `k` identifiers: as many as there are plain segments, or as many
/// as there are segments in the end, whichever is more.
#[verifier::opaque]
pub open spec fn takes<T: Transcriber, D: Diarizer>(
    before: MeetingDaemon<T, D>,
    after: MeetingDaemon<T, D>,
    samples: Seq<Float32>,
    source: AudioSource,
    start: u64,
    pending: PendingChunk,
    k: nat,
) -> bool {
    let context = daemon_context(before.state.chunks(), source, start);
    let secs = before.config.chunk_duration_secs;
    let first = before.next_segment_id;
    exists|said: Seq<String>|
        #[trigger] heard_all(&before.transcriber->0, samples, secs, said) && ({
            let plain = said_segments(samples, secs, said, first, context);
            let next = id_after(first, plain.len());
            &&& chunk_segments(
                before.diarizer,
                after.diarizer,
                before.config.diarization.enabled,
                samples,
                plain,
                next,
                context,
                segment_views(pending.segments@),
            )
            &&& after.next_segment_id == next_after(plain.len(), pending.segments@.len(), next)
            &&& k == if plain.len() > pending.segments@.len() {
                plain.len()
            } else {
                pending.segments@.len()
            }
        })
}

/// The segments of a chunk, attributed or not, have identifiers in a row from the one that
/// was next, and come from the source and the chunk that was processed. The identifier that
/// is next afterwards follows on those that were taken.
pub proof fn law_identifiers_in_a_row<T: Transcriber, D: Diarizer>(
    before: MeetingDaemon<T, D>,
    after: MeetingDaemon<T, D>,
    samples: Seq<Float32>,
    source: AudioSource,
    start: u64,
    pending: PendingChunk,
    k: nat,
)
    requires
        takes(before, after, samples, source, start, pending, k),
    ensures
        pending.segments@.len() <= k,
        after.next_segment_id == id_after(before.next_segment_id, k),
        forall|i: int|
            #![trigger segment_views(pending.segments@)[i]]
            0 <= i < pending.segments@.len() ==> {
                let s = segment_views(pending.segments@)[i];
                &&& s.id == id_after(before.next_segment_id, i as nat)
                &&& s.source == source
                &&& s.chunk_id == before.state.chunks()
                &&& s.text.len() > 0
            },
{
    reveal(takes);
    let chunk_id = before.state.chunks();
    let context = daemon_context(chunk_id, source, start);
    let secs = before.config.chunk_duration_secs;
    let first = before.next_segment_id;
    let diarization = before.config.diarization.enabled;
    let segments = segment_views(pending.segments@);
    let said = choose|said: Seq<String>|
        #[trigger] heard_all(&before.transcriber->0, samples, secs, said) && ({
            let plain = said_segments(samples, secs, said, first, context);
            let next = id_after(first, plain.len());
            &&& chunk_segments(
                before.diarizer,
                after.diarizer,
                diarization,
                samples,
                plain,
                next,
                context,
                segments,
            )
            &&& after.next_segment_id == next_after(plain.len(), pending.segments@.len(), next)
            &&& k == if plain.len() > pending.segments@.len() {
                plain.len()
            } else {
                pending.segments@.len()
            }
        });
    let plain = said_segments(samples, secs, said, first, context);
    let next = id_after(first, plain.len());
    let plan = planned(samples, chunk_config(secs));
    law_identifiers_of_regions(plan, texts(said), plan.len() as int, first, context);
    if pending.segments@.len() > plain.len() {
        lemma_id_after(first, plain.len(), (pending.segments@.len() - plain.len()) as nat);
    }
    if diarization && plain.len() > 0 {
        let out = choose|out: Vec<DiarizedSegment>|
            #[trigger] asked(
                before.diarizer,
                samples,
                context.start_offset_ms,
                context.source,
                plain,
                out,
            ) && segments == with_speakers(
                plain,
                diarized_views(out@),
                next,
                context.chunk_id,
                context.source,
            );
        let d = diarized_views(out@);
        law_speakers_keep_chunk(plain, d, d.len() as int, next, chunk_id, source);
        let r = refined(plain, d, d.len() as int, next, chunk_id, source);
        assert forall|i: int| #![trigger segments[i]] 0 <= i < segments.len() implies segments[i].id
            == id_after(first, i as nat) && segments[i].source == source && segments[i].chunk_id
            == chunk_id && segments[i].text.len() > 0 by {
            if r.len() == 0 {
                assert(segments[i] == plain[i]);
            } else {
                assert(segments[i] == r[i]);
                if i < plain.len() {
                    assert(plain[i].id == id_after(first, i as nat));
                } else {
                    lemma_id_after(first, plain.len(), (i - plain.len()) as nat);
                }
            }
        }
    }
    assert(segments.len() == pending.segments@.len());
}

/// Every chunk that is processed takes some number of identifiers.
pub proof fn law_chunks_take_identifiers<T: Transcriber, D: Diarizer>(
    before: MeetingDaemon<T, D>,
    after: MeetingDaemon<T, D>,
    samples: Seq<Float32>,
    source: AudioSource,
    start: u64,
    pending: PendingChunk,
) -> (k: nat)
    requires
        processed(before, after, samples, source, start, Ok(Some(pending))),
    ensures
        takes(before, after, samples, source, start, pending, k),
{
    reveal(takes);
    let context = daemon_context(before.state.chunks(), source, start);
    let secs = before.config.chunk_duration_secs;
    let first = before.next_segment_id;
    let said = choose|said: Seq<String>|
        #[trigger] heard_all(&before.transcriber->0, samples, secs, said) && ({
            let plain = said_segments(samples, secs, said, first, context);
            let next = id_after(first, plain.len());
            &&& chunk_segments(
                before.diarizer,
                after.diarizer,
                before.config.diarization.enabled,
                samples,
                plain,
                next,
                context,
                segment_views(pending.segments@),
            )
            &&& after.next_segment_id == next_after(plain.len(), pending.segments@.len(), next)
        });
    let plain = said_segments(samples, secs, said, first, context);
    if plain.len() > pending.segments@.len() {
        plain.len()
    } else {
        pending.segments@.len()
    }
}

/// A chunk that was processed: the daemon before and after, the audio, what came of it, and
/// how many identifiers it took.
pub struct ChunkCall<T: Transcriber, D: Diarizer> {
    pub before: MeetingDaemon<T, D>,
    pub after: MeetingDaemon<T, D>,
    pub samples: Seq<Float32>,
    pub source: AudioSource,
    pub start: u64,
    pub pending: PendingChunk,
    pub taken: nat,
}

impl<T: Transcriber, D: Diarizer> ChunkCall<T, D> {
    /// The chunk was processed, and the identifiers sufficed.
    pub open spec fn happened(self) -> bool {
        &&& processed(
            self.before,
            self.after,
            self.samples,
            self.source,
            self.start,
            Ok(Some(self.pending)),
        )
        &&& takes(
            self.before,
            self.after,
            self.samples,
            self.source,
            self.start,
            self.pending,
            self.taken,
        )
        &&& self.before.next_segment_id + self.taken <= u32::MAX
    }
}

/// Chunks of one meeting, in the order in which they were processed. What else the daemon
/// does in a meeting (to pause, to go on, to count a chunk, to fail) keeps the identifier
/// that is next.
pub open spec fn one_meeting<T: Transcriber, D: Diarizer>(calls: Seq<ChunkCall<T, D>>) -> bool {
    &&& forall|i: int| #![trigger calls[i]] 0 <= i < calls.len() ==> calls[i].happened()
    &&& forall|i: int, j: int|
        #![trigger calls[i], calls[j]]
        0 <= i && j == i + 1 && j < calls.len() ==> calls[j].before.next_segment_id
            == calls[i].after.next_segment_id
}

/// In one call the identifiers of the segments lie between the identifier that was next and
/// the one that is next then.
pub proof fn law_identifiers_lie_between<T: Transcriber, D: Diarizer>(call: ChunkCall<T, D>)
    requires
        call.happened(),
    ensures
        call.after.next_segment_id == call.before.next_segment_id + call.taken,
        forall|a: int|
            #![trigger call.pending.segments@[a]]
            0 <= a < call.pending.segments@.len() ==> call.pending.segments@[a].id
                == call.before.next_segment_id + a < call.after.next_segment_id,
{
    lemma_between(
        call.before,
        call.after,
        call.samples,
        call.source,
        call.start,
        call.pending,
        call.taken,
    );
}

proof fn lemma_between<T: Transcriber, D: Diarizer>(
    before: MeetingDaemon<T, D>,
    after: MeetingDaemon<T, D>,
    samples: Seq<Float32>,
    source: AudioSource,
    start: u64,
    pending: PendingChunk,
    k: nat,
)
    requires
        takes(before, after, samples, source, start, pending, k),
        before.next_segment_id + k <= u32::MAX,
    ensures
        after.next_segment_id == before.next_segment_id + k,
        forall|a: int|
            #![trigger pending.segments@[a]]
            0 <= a < pending.segments@.len() ==> pending.segments@[a].id == before.next_segment_id
                + a < after.next_segment_id,
{
    law_identifiers_in_a_row(before, after, samples, source, start, pending, k);
    assert forall|a: int|
        #![trigger pending.segments@[a]]
        0 <= a < pending.segments@.len() implies pending.segments@[a].id
        == before.next_segment_id + a < after.next_segment_id by {
        let s = segment_views(pending.segments@)[a];
        assert(s == pending.segments@[a]@);
    }
}

/// Over the chunks of one meeting the identifier that is next never falls.
pub proof fn law_next_identifier_never_falls<T: Transcriber, D: Diarizer>(
    calls: Seq<ChunkCall<T, D>>,
    i: int,
    j: int,
)
    requires
        one_meeting(calls),
        0 <= i < j < calls.len(),
    ensures
        calls[i].before.next_segment_id <= calls[i].after.next_segment_id
            <= calls[j].before.next_segment_id <= calls[j].after.next_segment_id,
    decreases j - i,
{
    law_identifiers_lie_between(calls[i]);
    law_identifiers_lie_between(calls[j]);
    if i + 1 < j {
        law_next_identifier_never_falls(calls, i, j - 1);
        assert(calls[j].before.next_segment_id == calls[j - 1].after.next_segment_id);
    } else {
        assert(calls[j].before.next_segment_id == calls[i].after.next_segment_id);
    }
}

/// No identifier is given to two segments of one meeting.
pub proof fn law_identifiers_are_given_once<T: Transcriber, D: Diarizer>(
    calls: Seq<ChunkCall<T, D>>,
    i: int,
    a: int,
    j: int,
    b: int,
)
    requires
        one_meeting(calls),
        0 <= i < calls.len(),
        0 <= j < calls.len(),
        0 <= a < calls[i].pending.segments@.len(),
        0 <= b < calls[j].pending.segments@.len(),
        i != j || a != b,
    ensures
        calls[i].pending.segments@[a].id != calls[j].pending.segments@[b].id,
{
    law_identifiers_lie_between(calls[i]);
    law_identifiers_lie_between(calls[j]);
    if i < j {
        law_next_identifier_never_falls(calls, i, j);
    } else if j < i {
        law_next_identifier_never_falls(calls, j, i);
    }
}

/// Whether storing a chunk fails or not, the daemon ends in the same way, and the same event
/// tells of the chunk; the only difference is one error before that event.
pub proof fn law_failed_write_changes_nothing<T: Transcriber, D: Diarizer>(
    before: MeetingDaemon<T, D>,
    stored: MeetingDaemon<T, D>,
    unstored: MeetingDaemon<T, D>,
    pending: PendingChunk,
    e: String,
)
    requires
        finished(before, stored, pending, Ok(())),
        finished(before, unstored, pending, Err(e)),
    ensures
        unstored == (MeetingDaemon { outbox: unstored.outbox, ..stored }),
        stored.outbox@.drop_last() == before.outbox@,
        tells_of(stored.outbox@.last(), pending),
        unstored.outbox@.drop_last().drop_last() == before.outbox@,
        unstored.outbox@[before.outbox@.len() as int] is Error,
        tells_of(unstored.outbox@.last(), pending),
{
    assert(stored.outbox@.drop_last() =~= stored.outbox@.take(before.outbox@.len() as int));
    assert(unstored.outbox@.drop_last().drop_last() =~= unstored.outbox@.take(
        before.outbox@.len() as int,
    ));
}

/// A chunk that ends `elapsed` milliseconds into the meeting is processed as one that starts
/// its own length earlier, wherever the transcript ends; and without speakers no segment of
/// it starts before that.
pub proof fn law_clock_places_chunks<T: Transcriber, D: Diarizer>(
    before: MeetingDaemon<T, D>,
    after: MeetingDaemon<T, D>,
    samples: Seq<Float32>,
    source: AudioSource,
    elapsed: u64,
    transcript: Option<u64>,
    r: Result<Option<PendingChunk>, MeetingError>,
)
    requires
        samples.len() * 1000 <= u64::MAX,
        processed(
            before,
            after,
            samples,
            source,
            chunk_start(Some(elapsed), transcript, samples.len()),
            r,
        ),
    ensures
        ({
            let length = samples.len() * 1000 / 16000;
            let start = if elapsed >= length {
                (elapsed - length) as u64
            } else {
                0
            };
            &&& processed(before, after, samples, source, start, r)
            &&& r matches Ok(Some(pending)) ==> !before.config.diarization.enabled ==> forall|
                i: int,
            |
                #![trigger pending.segments@[i]]
                0 <= i < pending.segments@.len() ==> start <= pending.segments@[i].start_ms
        }),
{
    let start = chunk_start(Some(elapsed), transcript, samples.len());
    if let Ok(Some(pending)) = r {
        let context = daemon_context(before.state.chunks(), source, start);
        let secs = before.config.chunk_duration_secs;
        let first = before.next_segment_id;
        let segments = segment_views(pending.segments@);
        let said = choose|said: Seq<String>|
            #[trigger] heard_all(&before.transcriber->0, samples, secs, said) && segments
                == said_segments(samples, secs, said, first, context);
        let plan = planned(samples, chunk_config(secs));
        law_planned_ordered(samples, chunk_config(secs));
        law_segments_in_a_row(plan, texts(said), first, context, samples.len() as int);
        if !before.config.diarization.enabled {
            assert forall|i: int|
                #![trigger pending.segments@[i]]
                0 <= i < pending.segments@.len() implies start
                <= pending.segments@[i].start_ms by {
                assert(segments[i] == pending.segments@[i]@);
            }
        }
    }
}

/// Processing a chunk takes no segment out of the transcript, and adds those of the chunk.
pub proof fn law_transcript_grows<T: Transcriber, D: Diarizer>(
    before: MeetingDaemon<T, D>,
    after: MeetingDaemon<T, D>,
    samples: Seq<Float32>,
    source: AudioSource,
    start: u64,
    pending: PendingChunk,
)
    requires
        processed(before, after, samples, source, start, Ok(Some(pending))),
        before.current_meeting is Some,
    ensures
        after.current_meeting is Some,
        after.current_meeting->0.transcript.segments@.to_multiset()
            == before.current_meeting->0.transcript.segments@.to_multiset().add(
            pending.segments@.to_multiset(),
        ),
{
    law_recording_keeps_segments(
        before.current_meeting->0.transcript.segments@,
        pending.segments@,
        before.config.diarization.enabled,
        source,
    );
}

/// The meeting has counted as many chunks as the state once the chunk is counted there.
pub proof fn law_chunks_are_counted<T: Transcriber, D: Diarizer>(
    before: MeetingDaemon<T, D>,
    after: MeetingDaemon<T, D>,
    samples: Seq<Float32>,
    source: AudioSource,
    start: u64,
    pending: PendingChunk,
)
    requires
        processed(before, after, samples, source, start, Ok(Some(pending))),
        before.current_meeting is Some,
        before.state.chunks() < u32::MAX,
    ensures
        after.current_meeting is Some,
        after.state == before.state,
        after.current_meeting->0.transcript.total_chunks == after.state.advanced().chunks(),
        after.current_meeting->0.metadata.chunk_count == after.state.advanced().chunks(),
{
}

/// Audio that comes while no meeting is active changes nothing.
pub proof fn law_inactive_daemon_ignores_audio<T: Transcriber, D: Diarizer>(
    before: MeetingDaemon<T, D>,
    after: MeetingDaemon<T, D>,
    samples: Seq<Float32>,
    source: AudioSource,
    start: u64,
    r: Result<Option<PendingChunk>, MeetingError>,
)
    requires
        processed(before, after, samples, source, start, r),
        !(before.state is Active),
    ensures
        after == before,
        r == Ok::<Option<PendingChunk>, MeetingError>(None),
{
}

/// Without speakers, the segments of a chunk are what the transcriber said of its regions:
/// one for each region that says something, in their order, with the words and the times of
/// its own region.
pub proof fn law_daemon_tells_what_was_said<T: Transcriber, D: Diarizer>(
    before: MeetingDaemon<T, D>,
    after: MeetingDaemon<T, D>,
    samples: Seq<Float32>,
    source: AudioSource,
    start: u64,
    pending: PendingChunk,
) -> (said: Seq<String>)
    requires
        processed(before, after, samples, source, start, Ok(Some(pending))),
        !before.config.diarization.enabled,
    ensures
        ({
            let plan = planned(samples, chunk_config(before.config.chunk_duration_secs));
            let all = spoken_regions(plan, texts(said));
            let context = ChunkContext {
                chunk_id: before.state.chunks(),
                source,
                start_offset_ms: start,
                sample_rate: 16000,
            };
            &&& said.len() == plan.len()
            &&& heard(&before.transcriber->0, samples, plan, said)
            &&& pending.segments@.len() == all.len()
            &&& forall|i: int|
                #![trigger pending.segments@[i]]
                0 <= i < all.len() ==> tells(pending.segments@[i]@, all[i], context)
        }),
{
    let secs = before.config.chunk_duration_secs;
    let context = daemon_context(before.state.chunks(), source, start);
    let first = before.next_segment_id;
    let segments = segment_views(pending.segments@);
    let said = choose|said: Seq<String>|
        #[trigger] heard_all(&before.transcriber->0, samples, secs, said) && segments
            == said_segments(samples, secs, said, first, context);
    let plan = planned(samples, chunk_config(secs));
    law_segments_tell_their_own_region(plan, texts(said), first, context);
    assert forall|i: int|
        #![trigger pending.segments@[i]]
        0 <= i < segments.len() implies tells(
        pending.segments@[i]@,
        spoken_regions(plan, texts(said))[i],
        context,
    ) by {
        assert(segments[i] == pending.segments@[i]@);
    }
    said
}

/// With speakers, the segments of a chunk are what the diarizer made of the plain ones: one
/// for each that it found with words, in their order, with its own speaker, times and words;
/// and the plain ones where it found no words.
pub proof fn law_daemon_shows_what_was_found<T: Transcriber, D: Diarizer>(
    before: MeetingDaemon<T, D>,
    after: MeetingDaemon<T, D>,
    samples: Seq<Float32>,
    source: AudioSource,
    start: u64,
    pending: PendingChunk,
) -> (r: (Seq<String>, Vec<DiarizedSegment>))
    requires
        processed(before, after, samples, source, start, Ok(Some(pending))),
        before.config.diarization.enabled,
        pending.segments@.len() > 0,
    ensures
        ({
            let secs = before.config.chunk_duration_secs;
            let context = daemon_context(before.state.chunks(), source, start);
            let plain = said_segments(samples, secs, r.0, before.next_segment_id, context);
            let found = worded(diarized_views(r.1@));
            &&& heard_all(&before.transcriber->0, samples, secs, r.0)
            &&& asked(before.diarizer, samples, start, source, plain, r.1)
            &&& found.len() == 0 ==> segment_views(pending.segments@) == plain
            &&& found.len() > 0 ==> pending.segments@.len() == found.len() && forall|i: int|
                #![trigger pending.segments@[i]]
                0 <= i < found.len() ==> shows(pending.segments@[i]@, found[i])
                    && pending.segments@[i].source == source && pending.segments@[i].chunk_id
                    == before.state.chunks()
        }),
{
    let secs = before.config.chunk_duration_secs;
    let chunk_id = before.state.chunks();
    let context = daemon_context(chunk_id, source, start);
    let first = before.next_segment_id;
    let segments = segment_views(pending.segments@);
    assert(segments.len() == pending.segments@.len());
    let said = choose|said: Seq<String>|
        #[trigger] heard_all(&before.transcriber->0, samples, secs, said) && ({
            let plain = said_segments(samples, secs, said, first, context);
            chunk_segments(
                before.diarizer,
                after.diarizer,
                true,
                samples,
                plain,
                id_after(first, plain.len()),
                context,
                segments,
            )
        });
    let plain = said_segments(samples, secs, said, first, context);
    let next = id_after(first, plain.len());
    assert(plain.len() > 0);
    let out = choose|out: Vec<DiarizedSegment>|
        #[trigger] asked(before.diarizer, samples, start, source, plain, out) && segments
            == with_speakers(plain, diarized_views(out@), next, chunk_id, source);
    law_segments_show_their_own_speaker(plain, diarized_views(out@), next, chunk_id, source);
    let found = worded(diarized_views(out@));
    assert forall|i: int| #![trigger pending.segments@[i]] 0 <= i < found.len() implies shows(
        pending.segments@[i]@,
        found[i],
    ) && pending.segments@[i].source == source && pending.segments@[i].chunk_id
        == chunk_id by {
        assert(segments[i] == pending.segments@[i]@);
    }
    (said, out)
}

/// A diarizer that was asked about a chunk was given all of its samples, when it starts, where
/// it comes from and all of its plain segments.
pub proof fn law_diarizer_is_asked_about_the_chunk<D: Diarizer>(
    diarizer: D,
    samples: Seq<Float32>,
    start: u64,
    source: AudioSource,
    plain: Seq<SegmentView>,
    out: Vec<DiarizedSegment>,
)
    requires
        asked(diarizer, samples, start, source, plain, out),
    ensures
        exists|d: &mut D, s: &[Float32], g: &[TranscriptSegment]|
            #[trigger] call_ensures(<D as Diarizer>::diarize, (d, s, start, source, g), out) && *d
                == diarizer && s@ == samples && segment_views(g@) == plain,
{
}

/// A chunk is to be stored exactly where it has segments and there is a meeting, and it is
/// the chunk that the state counts next.
pub proof fn law_chunks_with_segments_are_stored<T: Transcriber, D: Diarizer>(
    before: MeetingDaemon<T, D>,
    after: MeetingDaemon<T, D>,
    samples: Seq<Float32>,
    source: AudioSource,
    start: u64,
    pending: PendingChunk,
)
    requires
        processed(before, after, samples, source, start, Ok(Some(pending))),
    ensures
        pending.persist <==> pending.segments@.len() > 0 && before.current_meeting is Some,
        pending.chunk_id == before.state.chunks(),
{
}

/// A chunk that cannot be transcribed leaves the daemon as it was.
pub proof fn law_failed_transcription_changes_nothing<T: Transcriber, D: Diarizer>(
    before: MeetingDaemon<T, D>,
    after: MeetingDaemon<T, D>,
    samples: Seq<Float32>,
    source: AudioSource,
    start: u64,
    e: MeetingError,
)
    requires
        processed(before, after, samples, source, start, Err(e)),
    ensures
        after == before,
        before.state is Active,
        e is Transcribe <==> before.transcriber is Some,
        e is TranscriberNotInitialized <==> before.transcriber is None,
{
}

/// Segments are recorded behind what is there, or, for the loopback without speakers, in the
/// order of time among it.
pub proof fn law_transcript_keeps_its_order<T: Transcriber, D: Diarizer>(
    before: MeetingDaemon<T, D>,
    after: MeetingDaemon<T, D>,
    samples: Seq<Float32>,
    source: AudioSource,
    start: u64,
    pending: PendingChunk,
    i: int,
    j: int,
)
    requires
        processed(before, after, samples, source, start, Ok(Some(pending))),
        before.current_meeting is Some,
    ensures
        ({
            let old_segments = before.current_meeting->0.transcript.segments@;
            let r = after.current_meeting->0.transcript.segments@;
            if !before.config.diarization.enabled && source == AudioSource::Loopback {
                0 <= i < j < r.len() ==> comes_first(r[i], r[j])
            } else {
                r == old_segments + pending.segments@
            }
        }),
{
    law_recorded_segments_are_in_their_place(
        before.current_meeting->0.transcript.segments@,
        pending.segments@,
        before.config.diarization.enabled,
        source,
        i,
        j,
    );
}

/// A meeting that is over is completed, has as many chunks as its transcript, and is the same
/// meeting with the same transcript.
pub proof fn law_closing_keeps_the_meeting(meeting: MeetingData)
    ensures
        closed(meeting).metadata.status == MeetingStatus::Completed,
        closed(meeting).metadata.chunk_count == meeting.transcript.total_chunks,
        closed(meeting).transcript == meeting.transcript,
        closed(meeting).metadata.id == meeting.metadata.id,
        closed(meeting).metadata.title == meeting.metadata.title,
        closed(meeting).metadata.model == meeting.metadata.model,
        closed(meeting).metadata.storage_path == meeting.metadata.storage_path,
{
}

/// The daemon transcribes at 16 kHz what is louder than a hundredth and lasts half a second,
/// in chunks of the configured length.
pub proof fn law_daemon_goes_by_the_defaults(secs: u32)
    ensures
        chunk_config(secs).chunk_duration_secs == secs,
        chunk_config(secs).sample_rate == 16000,
        chunk_config(secs).vad_threshold == (Float32 { bits: 0x3c23_d70a }),
        chunk_config(secs).min_chunk_duration_secs == (Float32 { bits: 0x3f00_0000 }),
{
}

/// A chunk ends when it is handed in: by the clock where it runs, else where the transcript
/// ends, else at the start; and it starts its own length before, but not before the meeting.
pub proof fn law_chunks_end_when_they_are_handed_in(
    elapsed: Option<u64>,
    transcript: Option<u64>,
    count: nat,
)
    requires
        count * 1000 <= u64::MAX,
    ensures
        ({
            let start = chunk_start(elapsed, transcript, count);
            let end = if elapsed is Some {
                elapsed->0
            } else if transcript is Some {
                transcript->0
            } else {
                0
            };
            &&& end >= count / 16 ==> start + count / 16 == end
            &&& end < count / 16 ==> start == 0
        }),
{
    assert(count * 1000 / 16000 == count / 16);
}

/// Recording a chunk changes nothing of a meeting but its segments and its number of chunks.
pub proof fn law_recording_keeps_the_meeting<T: Transcriber, D: Diarizer>(
    before: MeetingDaemon<T, D>,
    after: MeetingDaemon<T, D>,
    samples: Seq<Float32>,
    source: AudioSource,
    start: u64,
    pending: PendingChunk,
)
    requires
        processed(before, after, samples, source, start, Ok(Some(pending))),
        before.current_meeting is Some,
    ensures
        ({
            let old_meeting = before.current_meeting->0;
            let meeting = after.current_meeting->0;
            &&& after.current_meeting is Some
            &&& meeting.metadata.id == old_meeting.metadata.id
            &&& meeting.metadata.title == old_meeting.metadata.title
            &&& meeting.metadata.status == old_meeting.metadata.status
            &&& meeting.metadata.model == old_meeting.metadata.model
            &&& meeting.metadata.storage_path == old_meeting.metadata.storage_path
        }),
        after.state == before.state,
        after.config == before.config,
        after.outbox == before.outbox,
        after.transcriber == before.transcriber,
{
}

/// Counting a chunk counts one chunk of an active meeting, keeps what was recorded, and leaves
/// the events that were there before the new ones.
pub proof fn law_finishing_counts_the_chunk<T: Transcriber, D: Diarizer>(
    before: MeetingDaemon<T, D>,
    after: MeetingDaemon<T, D>,
    pending: PendingChunk,
    persisted: Result<(), String>,
)
    requires
        finished(before, after, pending, persisted),
        before.state is Active,
        before.state.chunks() < u32::MAX,
    ensures
        after.state is Active,
        after.state.chunks() == before.state.chunks() + 1,
        after.current_meeting == before.current_meeting,
        after.next_segment_id == before.next_segment_id,
        after.diarizer == before.diarizer,
        after.outbox@.len() > before.outbox@.len(),
        forall|i: int|
            #![trigger after.outbox@[i]]
            0 <= i < before.outbox@.len() ==> after.outbox@[i] == before.outbox@[i],
        tells_of(after.outbox@.last(), pending),
{
    assert forall|i: int|
        #![trigger after.outbox@[i]]
        0 <= i < before.outbox@.len() implies after.outbox@[i] == before.outbox@[i] by {
        assert(after.outbox@.take(before.outbox@.len() as int)[i] == before.outbox@[i]);
    }
}

} // verus!
