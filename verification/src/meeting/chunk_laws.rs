//! What holds of the segments of a chunk, whatever is said.
use vstd::prelude::*;
use crate::float32::{of_integer, one_units, product, truncated, Float32};
use crate::float32_laws::{
    law_exact_quotients_are_exact, law_exact_roots_are_exact, law_small_integers_are_exact,
    law_small_products_are_exact, law_small_sums_are_exact, lemma_sixteen_thousand,
    lemma_zero_is_zero,
};
use crate::meeting::chunk::{
    frame_count, frame_size, heard, id_after, in_time, law_speech_regions_ordered, lemma_frames,
    long_enough, long_regions, loud_frames, planned, region_segments, rms, speaks,
    speech_regions, sum_squares, time_of, transcribes, ChunkConfig, ChunkContext, Transcriber,
    MAX_SEGMENT_SECS, WINDOW_MS,
};
use crate::meeting::data::SegmentView;
use crate::meeting::speech::{
    frame_end, speech_count, HANGOVER_FRAMES, MIN_SPEECH_FRAMES, PADDING_FRAMES,
};
use crate::meeting::speech_laws::{
    holds_sample, law_regions_cover_speech, lemma_frame_bounds, ordered,
};
use crate::text::trimmed;

verus! {

/// Segments have identifiers in a row, come from one source and one chunk, say something,
/// do not start before the chunk, and lie one behind the other.
pub open spec fn in_a_row(s: Seq<SegmentView>, first: u32, context: ChunkContext) -> bool {
    &&& forall|i: int|
        #![trigger s[i]]
        0 <= i < s.len() ==> s[i].id == id_after(first, i as nat) && s[i].source == context.source
            && s[i].chunk_id == context.chunk_id && s[i].text.len() > 0
            && context.start_offset_ms <= s[i].start_ms <= s[i].end_ms
    &&& forall|i: int, j: int|
        #![trigger s[i], s[j]]
        0 <= i < j < s.len() ==> s[i].end_ms <= s[j].start_ms
}

proof fn lemma_times_increase(x: int, y: int, n: int, context: ChunkContext)
    requires
        0 <= x <= y <= n,
        context.sample_rate > 0,
        in_time(n, context),
    ensures
        context.start_offset_ms <= time_of(x, context) <= time_of(y, context),
{
    let rate = context.sample_rate as int;
    vstd::arithmetic::div_mod::lemma_div_is_ordered(x * 1000, y * 1000, rate);
    vstd::arithmetic::div_mod::lemma_div_is_ordered(y * 1000, n * 1000, rate);
    vstd::arithmetic::div_mod::lemma_div_is_ordered(0, x * 1000, rate);
    assert(0int / rate == 0) by (nonlinear_arith)
        requires
            rate > 0,
    ;
}

proof fn lemma_region_segments(
    plan: Seq<(int, int)>,
    said: Seq<Seq<char>>,
    k: int,
    first: u32,
    context: ChunkContext,
    n: int,
)
    requires
        0 <= k <= plan.len(),
        ordered(plan, n),
        context.sample_rate > 0,
        in_time(n, context),
    ensures
        ({
            let s = region_segments(plan, said, k, first, context);
            &&& in_a_row(s, first, context)
            &&& s.len() <= k
            &&& s.len() > 0 ==> k > 0 && s.last().end_ms <= time_of(plan[k - 1].1, context)
        }),
    decreases k,
{
    if k > 0 {
        lemma_region_segments(plan, said, k - 1, first, context, n);
        let prev = region_segments(plan, said, k - 1, first, context);
        let s = region_segments(plan, said, k, first, context);
        let (start, end) = plan[k - 1];
        assert(0 <= start < end <= n);
        lemma_times_increase(start, end, n, context);
        if k > 1 {
            assert(plan[k - 2].1 <= plan[k - 1].0);
            assert(0 <= plan[k - 2].0 < plan[k - 2].1 <= n);
            lemma_times_increase(plan[k - 2].1, start, n, context);
        }
        if trimmed(said[k - 1]).len() > 0 {
            assert forall|i: int, j: int|
                #![trigger s[i], s[j]]
                0 <= i < j < s.len() implies s[i].end_ms <= s[j].start_ms by {
                assert(s[i] == prev[i]);
                if j < prev.len() {
                    assert(s[j] == prev[j]);
                } else if i < prev.len() - 1 {
                    assert(prev[i].end_ms <= prev[prev.len() - 1].start_ms);
                    assert(prev[prev.len() - 1].start_ms <= prev[prev.len() - 1].end_ms);
                }
            }
        }
    }
}

/// Whatever the regions, the segments of a chunk have identifiers in a row, come from its
/// source, and say something.
pub proof fn law_identifiers_of_regions(
    plan: Seq<(int, int)>,
    said: Seq<Seq<char>>,
    k: int,
    first: u32,
    context: ChunkContext,
)
    ensures
        ({
            let s = region_segments(plan, said, k, first, context);
            forall|i: int|
                #![trigger s[i]]
                0 <= i < s.len() ==> s[i].id == id_after(first, i as nat) && s[i].source
                    == context.source && s[i].chunk_id == context.chunk_id && s[i].text.len() > 0
        }),
    decreases k,
{
    if k > 0 {
        law_identifiers_of_regions(plan, said, k - 1, first, context);
    }
}

/// Segments of regions that lie one behind the other get identifiers in a row, and times
/// one behind the other.
pub proof fn law_segments_in_a_row(
    plan: Seq<(int, int)>,
    said: Seq<Seq<char>>,
    first: u32,
    context: ChunkContext,
    n: int,
)
    requires
        ordered(plan, n),
        context.sample_rate > 0,
        in_time(n, context),
    ensures
        in_a_row(region_segments(plan, said, plan.len() as int, first, context), first, context),
        region_segments(plan, said, plan.len() as int, first, context).len() <= plan.len(),
{
    lemma_region_segments(plan, said, plan.len() as int, first, context, n);
}

proof fn lemma_no_speech(flags: Seq<bool>, k: int)
    requires
        0 <= k <= flags.len(),
        forall|i: int| #![trigger flags[i]] 0 <= i < flags.len() ==> !flags[i],
    ensures
        speech_count(flags, k) == 0,
    decreases k,
{
    if k > 0 {
        lemma_no_speech(flags, k - 1);
    }
}

/// Of a chunk in which no frame is louder than the threshold nothing is transcribed.
pub proof fn law_silence_is_not_transcribed(samples: Seq<Float32>, config: ChunkConfig)
    requires
        ({
            let flags = loud_frames(samples, frame_size(config.sample_rate), config.vad_threshold);
            forall|i: int| #![trigger flags[i]] 0 <= i < flags.len() ==> !flags[i]
        }),
    ensures
        !speaks(samples, config.sample_rate, config.vad_threshold),
        planned(samples, config).len() == 0,
{
    let flags = loud_frames(samples, frame_size(config.sample_rate), config.vad_threshold);
    lemma_no_speech(flags, flags.len() as int);
}

/// The least length of a region that is transcribed, in samples.
pub open spec fn least_region(config: ChunkConfig) -> nat {
    truncated(product(config.min_chunk_duration_secs, of_integer(config.sample_rate as nat)))
}

proof fn lemma_long_regions(all: Seq<(int, int)>, k: int, min: nat, n: int)
    requires
        ordered(all, n),
        0 <= k <= all.len(),
    ensures
        long_regions(all, k, min) == all.take(k).filter(|r: (int, int)| r.1 - r.0 >= min),
    decreases k,
{
    reveal(Seq::filter);
    if k > 0 {
        lemma_long_regions(all, k - 1, min, n);
        assert(all.take(k).drop_last() =~= all.take(k - 1));
        assert(all.take(k).last() == all[k - 1]);
        assert(all[k - 1].0 < all[k - 1].1);
    }
}

/// Of a chunk that is long enough and has speech, every speech region of at least the least
/// length is transcribed, in the same order, and no other; of any other chunk nothing is.
pub proof fn law_every_long_region_is_transcribed(samples: Seq<Float32>, config: ChunkConfig)
    ensures
        long_enough(samples, config) && speaks(samples, config.sample_rate, config.vad_threshold)
            ==> planned(samples, config) == speech_regions(
            samples,
            config.sample_rate,
            config.vad_threshold,
        ).filter(|r: (int, int)| r.1 - r.0 >= least_region(config)),
        !(long_enough(samples, config) && speaks(
            samples,
            config.sample_rate,
            config.vad_threshold,
        )) ==> planned(samples, config).len() == 0,
{
    let all = speech_regions(samples, config.sample_rate, config.vad_threshold);
    law_speech_regions_ordered(samples, config.sample_rate, config.vad_threshold);
    lemma_long_regions(all, all.len() as int, least_region(config), samples.len() as int);
    assert(all.take(all.len() as int) =~= all);
}

/// Of a chunk that is long enough and has speech, every sample of a loud frame lies in a
/// speech region, and where that region has the least length it lies in one that is
/// transcribed.
pub proof fn law_loud_samples_are_transcribed(
    samples: Seq<Float32>,
    config: ChunkConfig,
    i: int,
    x: int,
)
    requires
        long_enough(samples, config),
        speaks(samples, config.sample_rate, config.vad_threshold),
        ({
            let w = frame_size(config.sample_rate);
            let flags = loud_frames(samples, w, config.vad_threshold);
            0 <= i < flags.len() && flags[i] && i * w <= x < frame_end(
                i,
                w as int,
                samples.len() as int,
            )
        }),
    ensures
        ({
            let all = speech_regions(samples, config.sample_rate, config.vad_threshold);
            &&& holds_sample(all, x)
            &&& forall|c: int|
                #![trigger all[c]]
                0 <= c < all.len() && all[c].0 <= x < all[c].1 && all[c].1 - all[c].0
                    >= least_region(config) ==> planned(samples, config).contains(all[c])
        }),
{
    broadcast use vstd::seq_lib::group_filter_ensures;

    let w = frame_size(config.sample_rate);
    let flags = loud_frames(samples, w, config.vad_threshold);
    let all = speech_regions(samples, config.sample_rate, config.vad_threshold);
    lemma_frames(samples.len(), w);
    law_regions_cover_speech(
        flags,
        w as int,
        samples.len() as int,
        MAX_SEGMENT_SECS * config.sample_rate as int,
        i,
        x,
    );
    law_every_long_region_is_transcribed(samples, config);
}

/// Regions and what was said in them, where that is not blank, in their order.
pub open spec fn spoken_regions(plan: Seq<(int, int)>, said: Seq<Seq<char>>) -> Seq<
    ((int, int), Seq<char>),
> {
    plan.zip_with(said).filter(|p: ((int, int), Seq<char>)| trimmed(p.1).len() > 0)
}

/// A segment tells what was said in a region: its words and its times, from the source and
/// the chunk, with nothing known of a speaker.
pub open spec fn tells(s: SegmentView, p: ((int, int), Seq<char>), context: ChunkContext) -> bool {
    &&& s.text == trimmed(p.1)
    &&& s.start_ms == time_of(p.0.0, context)
    &&& s.end_ms == time_of(p.0.1, context)
    &&& s.source == context.source
    &&& s.chunk_id == context.chunk_id
    &&& s.speaker_id is None
    &&& s.speaker_label is None
    &&& s.confidence is None
}

proof fn lemma_told(
    plan: Seq<(int, int)>,
    said: Seq<Seq<char>>,
    k: int,
    first: u32,
    context: ChunkContext,
)
    requires
        plan.len() == said.len(),
        0 <= k <= plan.len(),
    ensures
        ({
            let s = region_segments(plan, said, k, first, context);
            let all = plan.zip_with(said).take(k).filter(
                |p: ((int, int), Seq<char>)| trimmed(p.1).len() > 0,
            );
            &&& s.len() == all.len()
            &&& forall|i: int|
                #![trigger s[i]]
                0 <= i < s.len() ==> tells(s[i], all[i], context) && s[i].id == id_after(
                    first,
                    i as nat,
                )
        }),
    decreases k,
{
    reveal(Seq::filter);
    if k > 0 {
        lemma_told(plan, said, k - 1, first, context);
        let z = plan.zip_with(said);
        assert(z.take(k).drop_last() =~= z.take(k - 1));
        assert(z.take(k).last() == (plan[k - 1], said[k - 1]));
    }
}

/// The segments of a chunk are what was said in its regions, one for one and in their
/// order, the blank ones left out, with identifiers in a row: no region that says something
/// is lost, and each segment has the words and the times of its own region.
pub proof fn law_segments_tell_their_own_region(
    plan: Seq<(int, int)>,
    said: Seq<Seq<char>>,
    first: u32,
    context: ChunkContext,
)
    requires
        plan.len() == said.len(),
    ensures
        ({
            let s = region_segments(plan, said, plan.len() as int, first, context);
            let all = spoken_regions(plan, said);
            &&& s.len() == all.len()
            &&& forall|i: int|
                #![trigger s[i]]
                0 <= i < s.len() ==> tells(s[i], all[i], context) && s[i].id == id_after(
                    first,
                    i as nat,
                )
        }),
{
    lemma_told(plan, said, plan.len() as int, first, context);
    let z = plan.zip_with(said);
    assert(z.take(z.len() as int) =~= z);
}

/// The first sample of a chunk is at its start, and a sample that lies a second behind
/// another is at a time that lies a second behind.
pub proof fn law_time_runs_with_the_samples(x: int, context: ChunkContext)
    requires
        context.sample_rate > 0,
        x >= 0,
        in_time(x + context.sample_rate, context),
    ensures
        time_of(0, context) == context.start_offset_ms,
        time_of(x + context.sample_rate, context) == time_of(x, context) + 1000,
        context.start_offset_ms <= time_of(x, context),
{
    let rate = context.sample_rate as int;
    assert((x + rate) * 1000 == 1000 * rate + x * 1000);
    vstd::arithmetic::div_mod::lemma_div_multiples_vanish_fancy(1000, 0, rate);
    vstd::arithmetic::div_mod::lemma_hoist_over_denominator(x * 1000, 1000, rate as nat);
    lemma_times_increase(0, x, x + rate, context);
    lemma_times_increase(x, x + rate, x + rate, context);
    assert(0int / rate == 0) by (nonlinear_arith)
        requires
            rate > 0,
    ;
}

proof fn lemma_speech_count(flags: Seq<bool>, k: int)
    requires
        0 <= k <= flags.len(),
    ensures
        speech_count(flags, k) == flags.take(k).filter(|b: bool| b).len(),
    decreases k,
{
    reveal(Seq::filter);
    if k > 0 {
        lemma_speech_count(flags, k - 1);
        assert(flags.take(k).drop_last() =~= flags.take(k - 1));
        assert(flags.take(k).last() == flags[k - 1]);
    }
}

/// Audio counts as speech where enough of its frames are louder than the threshold,
/// wherever they lie.
pub proof fn law_speech_is_enough_loud_frames(
    samples: Seq<Float32>,
    sample_rate: u32,
    threshold: Float32,
)
    ensures
        speaks(samples, sample_rate, threshold) <==> samples.len() > 0 && frame_size(sample_rate)
            > 0 && loud_frames(samples, frame_size(sample_rate), threshold).filter(
            |b: bool| b,
        ).len() >= MIN_SPEECH_FRAMES,
{
    let flags = loud_frames(samples, frame_size(sample_rate), threshold);
    lemma_speech_count(flags, flags.len() as int);
    assert(flags.take(flags.len() as int) =~= flags);
}

/// Every sample lies in exactly one frame, and whether a frame is loud depends on its own
/// samples and the threshold alone.
pub proof fn law_frames_part_the_samples(
    a: Seq<Float32>,
    b: Seq<Float32>,
    w: nat,
    threshold: Float32,
    i: int,
    x: int,
)
    requires
        w > 0,
        a.len() == b.len(),
        0 <= x < a.len(),
        0 <= i < frame_count(a.len(), w),
        forall|y: int|
            #![trigger a[y]]
            i * w <= y < frame_end(i, w as int, a.len() as int) ==> a[y] == b[y],
    ensures
        loud_frames(a, w, threshold).len() == frame_count(a.len(), w),
        loud_frames(a, w, threshold)[i] == loud_frames(b, w, threshold)[i],
        loud_frames(a, w, threshold)[i] == threshold.below(
            rms(a.subrange(i * w, frame_end(i, w as int, a.len() as int))),
        ),
        i * w <= x < frame_end(i, w as int, a.len() as int) <==> i == x / (w as int),
{
    let n = a.len() as int;
    lemma_frames(a.len(), w);
    lemma_frame_bounds(i, frame_count(a.len(), w) as int, w as int, n);
    assert(a.subrange(i * w, frame_end(i, w as int, n)) =~= b.subrange(
        i * w,
        frame_end(i, w as int, n),
    ));
    vstd::arithmetic::div_mod::lemma_fundamental_div_mod(x, w as int);
    let q = x / (w as int);
    let r = x % (w as int);
    assert((i + 1) * w == i * w + w) by (nonlinear_arith);
    assert(w * q == q * w) by (nonlinear_arith);
    if i < q {
        assert((i + 1) * w <= q * w) by (nonlinear_arith)
            requires
                i + 1 <= q,
                w > 0,
        ;
    } else if i > q {
        assert((q + 1) * w <= i * w) by (nonlinear_arith)
            requires
                q + 1 <= i,
                w > 0,
        ;
        assert((q + 1) * w == q * w + w) by (nonlinear_arith);
    }
}

/// A pause lasts three quarters of a second, padding takes 180 milliseconds, speech needs 240
/// milliseconds of loud frames, no piece is longer than twelve seconds, and a frame has 480
/// samples at 16 kHz.
pub proof fn law_frames_in_milliseconds()
    ensures
        HANGOVER_FRAMES * WINDOW_MS == 750,
        PADDING_FRAMES * WINDOW_MS == 180,
        MIN_SPEECH_FRAMES * WINDOW_MS == 240,
        MAX_SEGMENT_SECS == 12,
        frame_size(16000) == 480,
{
}

proof fn lemma_sum_of_equal_squares(s: Seq<Float32>, v: nat)
    requires
        forall|i: int| #![trigger s[i]] 0 <= i < s.len() ==> s[i] == of_integer(v),
        v * v * s.len() <= 0x100_0000,
        v * v <= 0x100_0000,
        v <= 0x100_0000,
    ensures
        sum_squares(s) == of_integer(v * v * s.len()),
    decreases s.len(),
{
    let q = v * v;
    if s.len() == 0 {
        assert(q * 0 == 0) by (nonlinear_arith);
        lemma_zero_is_zero();
    } else {
        let m = (s.len() - 1) as nat;
        assert(q * s.len() == q * m + q) by (nonlinear_arith)
            requires
                m == s.len() - 1,
        ;
        let front = s.drop_last();
        assert forall|i: int| #![trigger front[i]] 0 <= i < front.len() implies front[i]
            == of_integer(v) by {
            assert(front[i] == s[i]);
        }
        lemma_sum_of_equal_squares(front, v);
        assert(s[s.len() - 1] == of_integer(v));
        law_small_products_are_exact(v, v);
        law_small_sums_are_exact(q * m, q);
    }
}

/// The loudness of samples that are all of one size is that size, and that of silence is
/// nothing: exactly so for small integers.
pub proof fn law_even_audio_is_as_loud_as_its_samples(s: Seq<Float32>, v: nat)
    requires
        0 < s.len() <= 0x100_0000,
        forall|i: int| #![trigger s[i]] 0 <= i < s.len() ==> s[i] == of_integer(v),
        v * v * s.len() <= 0x100_0000,
    ensures
        rms(s) == of_integer(v),
{
    let n = s.len();
    let q = v * v;
    assert(q <= q * n && v <= q) by (nonlinear_arith)
        requires
            n >= 1,
            q == v * v,
    ;
    lemma_sum_of_equal_squares(s, v);
    law_exact_quotients_are_exact(q, n);
    if v > 0 {
        law_exact_roots_are_exact(v);
    } else {
        lemma_zero_is_zero();
        assert(q == 0);
    }
}

/// What was said in a region is what the transcriber returned for the samples of that very
/// region.
pub proof fn law_regions_are_transcribed_by_themselves<T: Transcriber>(
    transcriber: &T,
    samples: Seq<Float32>,
    plan: Seq<(int, int)>,
    said: Seq<String>,
    i: int,
)
    requires
        heard(transcriber, samples, plan, said),
        0 <= i < said.len(),
    ensures
        exists|s: &[Float32]|
            #[trigger] call_ensures(
                <T as Transcriber>::transcribe,
                (transcriber, s),
                Ok(said[i]),
            ) && s@ == samples.subrange(plan[i].0, plan[i].1),
{
    assert(transcribes(
        transcriber,
        samples.subrange(plan[i].0, plan[i].1),
        Ok(said[i]),
    ));
    let part = samples.subrange(plan[i].0, plan[i].1);
    let s = choose|s: &[Float32]|
        #[trigger] s@ == part && call_ensures(
            <T as Transcriber>::transcribe,
            (transcriber, s),
            Ok(said[i]),
        );
    assert(call_ensures(<T as Transcriber>::transcribe, (transcriber, s), Ok(said[i])) && s@
        == part);
}

/// How long a chunk must be to be transcribed at all, and a region of it: so many seconds at
/// 16 kHz, and so many seconds at the rate of the audio; exactly so for whole seconds.
pub proof fn law_least_lengths_are_in_seconds(samples: Seq<Float32>, config: ChunkConfig, v: nat)
    requires
        config.min_chunk_duration_secs == of_integer(v),
        v <= 1000,
        config.sample_rate <= 0x100_0000,
        v * config.sample_rate <= 0x100_0000,
    ensures
        long_enough(samples, config) <==> samples.len() >= 16000 * v,
        least_region(config) == v * config.sample_rate,
{
    lemma_sixteen_thousand();
    law_small_products_are_exact(v, 16000);
    law_small_products_are_exact(v, config.sample_rate as nat);
    lemma_truncated(v * 16000);
    lemma_truncated(v * config.sample_rate as nat);
}

proof fn lemma_truncated(x: nat)
    requires
        x <= 0x100_0000,
    ensures
        truncated(of_integer(x)) == x,
{
    law_small_integers_are_exact(x);
    let one = one_units();
    vstd::arithmetic::power2::lemma_pow2_pos(149);
    vstd::arithmetic::div_mod::lemma_fundamental_div_mod_converse(
        (x * one) as int,
        one as int,
        x as int,
        0,
    );
}

} // verus!
