use std::sync::Mutex;
use std::time::{Duration, Instant};
use voxtype::float32::Float32;
use voxtype::meeting::chunk::{TranscribeError, Transcriber};
use voxtype::meeting::speech::split_long_segments;
use voxtype::meeting::{
    AudioSource, ChunkBuffer, ChunkConfig, ChunkProcessor, VoiceActivityDetector,
};

fn of(x: f32) -> Float32 {
    Float32::from_bits(x.to_bits())
}

fn value(x: Float32) -> f32 {
    f32::from_bits(x.to_bits())
}

fn all(v: &[f32]) -> Vec<Float32> {
    v.iter().map(|x| of(*x)).collect()
}

fn create_test_samples(duration_secs: f32, frequency_hz: f32, amplitude: f32) -> Vec<Float32> {
    let sample_rate = 16000.0;
    let num_samples = (duration_secs * sample_rate) as usize;
    (0..num_samples)
        .map(|i| {
            let t = i as f32 / sample_rate;
            of(amplitude * (2.0 * std::f32::consts::PI * frequency_hz * t).sin())
        })
        .collect()
}

fn create_silent_samples(duration_secs: f32) -> Vec<Float32> {
    let num_samples = (duration_secs * 16000.0) as usize;
    vec![of(0.0); num_samples]
}

#[derive(Default)]
struct MockTranscriber {
    calls: Mutex<Vec<usize>>,
}

impl MockTranscriber {
    fn observed_calls(&self) -> Vec<usize> {
        self.calls.lock().unwrap().clone()
    }
}

impl Transcriber for MockTranscriber {
    fn transcribe(&self, samples: &[Float32]) -> Result<String, TranscribeError> {
        let mut calls = self.calls.lock().unwrap();
        calls.push(samples.len());
        Ok(format!("segment {}", calls.len()))
    }
}

struct Failing {
    after: usize,
    calls: Mutex<usize>,
}

impl Transcriber for Failing {
    fn transcribe(&self, _samples: &[Float32]) -> Result<String, TranscribeError> {
        let mut calls = self.calls.lock().unwrap();
        *calls += 1;
        if *calls > self.after {
            Err(TranscribeError { message: "out of order".to_string() })
        } else {
            Ok(" said \n".to_string())
        }
    }
}

struct Blank;

impl Transcriber for Blank {
    fn transcribe(&self, _samples: &[Float32]) -> Result<String, TranscribeError> {
        Ok(" \t ".to_string())
    }
}

#[test]
fn test_chunk_buffer_duration() {
    let mut buffer = ChunkBuffer::new(0, AudioSource::Microphone, 0);
    buffer.add_samples(&vec![of(0.0); 16000]); // 1 second
    assert!((value(buffer.duration_secs()) - 1.0).abs() < 0.01);
}

#[test]
fn test_vad_silent_audio() {
    let vad = VoiceActivityDetector::new(of(0.01), 16000);
    let silent = create_silent_samples(1.0);
    assert!(!vad.contains_speech(&silent));
}

#[test]
fn test_vad_speech_audio() {
    let vad = VoiceActivityDetector::new(of(0.01), 16000);
    let speech = create_test_samples(1.0, 440.0, 0.5);
    assert!(vad.contains_speech(&speech));
}

#[test]
fn test_vad_detect_segments() {
    let vad = VoiceActivityDetector::new(of(0.01), 16000);

    // Create audio: silence, speech, silence
    let mut samples = create_silent_samples(0.5);
    samples.extend(create_test_samples(1.0, 440.0, 0.5));
    samples.extend(create_silent_samples(0.5));

    let segments = vad.detect_speech_segments(&samples);
    assert!(!segments.is_empty());

    // The speech should be detected roughly in the middle
    let (start, end) = segments[0];
    assert!(start > 0);
    assert!(end <= samples.len());
    assert!(start < end);
}

#[test]
fn test_chunk_config_default() {
    let config = ChunkConfig::default();
    assert_eq!(config.chunk_duration_secs, 30);
    assert_eq!(config.sample_rate, 16000);
    assert_eq!(value(config.vad_threshold), 0.01);
    assert_eq!(value(config.min_chunk_duration_secs), 0.5);
}

#[test]
fn test_rms_calculation() {
    let samples = all(&[0.5, -0.5, 0.5, -0.5]);
    let rms = value(VoiceActivityDetector::calculate_rms(&samples));
    assert!((rms - 0.5).abs() < 0.01);
}

#[test]
fn test_rms_empty() {
    let rms = value(VoiceActivityDetector::calculate_rms(&[]));
    assert_eq!(rms, 0.0);
}

#[test]
fn test_chunk_buffer_empty() {
    let buffer = ChunkBuffer::new(0, AudioSource::Microphone, 0);
    assert!(!buffer.has_audio());
    assert!((value(buffer.duration_secs()) - 0.0).abs() < 0.01);
}

#[test]
fn test_chunk_buffer_take_samples() {
    let mut buffer = ChunkBuffer::new(0, AudioSource::Microphone, 0);
    buffer.add_samples(&all(&[0.1, 0.2, 0.3]));
    assert!(buffer.has_audio());

    let samples = buffer.take_samples();
    assert_eq!(samples.len(), 3);
    assert!(!buffer.has_audio());
}

#[test]
fn test_chunk_buffer_multiple_adds() {
    let mut buffer = ChunkBuffer::new(0, AudioSource::Microphone, 0);
    buffer.add_samples(&vec![of(0.0); 8000]); // 0.5 seconds
    buffer.add_samples(&vec![of(0.0); 8000]); // 0.5 seconds
    assert!((value(buffer.duration_secs()) - 1.0).abs() < 0.01);
}

#[test]
fn test_chunk_buffer_elapsed() {
    let buffer = ChunkBuffer::new(0, AudioSource::Microphone, 0);
    let waiting = Instant::now();
    while waiting.elapsed() < Duration::from_millis(10) {}
    assert!(buffer.elapsed() >= Duration::from_millis(10));
}

#[test]
fn test_vad_empty_samples() {
    let vad = VoiceActivityDetector::new(of(0.01), 16000);
    assert!(!vad.contains_speech(&[]));
}

#[test]
fn test_vad_detect_segments_empty() {
    let vad = VoiceActivityDetector::new(of(0.01), 16000);
    let segments = vad.detect_speech_segments(&[]);
    assert!(segments.is_empty());
}

#[test]
fn test_vad_detect_segments_all_silence() {
    let vad = VoiceActivityDetector::new(of(0.01), 16000);
    let silent = create_silent_samples(2.0);
    let segments = vad.detect_speech_segments(&silent);
    assert!(segments.is_empty());
}

#[test]
fn test_vad_detect_segments_all_speech() {
    let vad = VoiceActivityDetector::new(of(0.01), 16000);
    let speech = create_test_samples(1.0, 440.0, 0.5);
    let segments = vad.detect_speech_segments(&speech);
    assert!(!segments.is_empty());
    // Speech covers the entire buffer
    let (start, _end) = segments[0];
    assert_eq!(start, 0);
}

#[test]
fn test_vad_threshold_boundary() {
    // RMS of a sine wave with amplitude A is A / sqrt(2)
    let threshold = of(0.5);
    let vad = VoiceActivityDetector::new(threshold, 16000);

    // Very quiet audio (RMS below threshold)
    let quiet = create_test_samples(1.0, 440.0, 0.001);
    assert!(!vad.contains_speech(&quiet));

    // Loud audio (RMS above threshold)
    let loud = create_test_samples(1.0, 440.0, 1.0);
    assert!(vad.contains_speech(&loud));
}

#[test]
fn test_vad_zero_sample_rate_no_panic() {
    // Edge case: zero sample rate should not panic
    let vad = VoiceActivityDetector::new(of(0.01), 0);
    assert!(!vad.contains_speech(&all(&[0.5, 0.5, 0.5])));
    assert!(vad.detect_speech_segments(&all(&[0.5, 0.5])).is_empty());
}

#[test]
fn test_chunk_config_custom() {
    let config = ChunkConfig {
        chunk_duration_secs: 60,
        vad_threshold: of(0.05),
        sample_rate: 48000,
        min_chunk_duration_secs: of(1.0),
    };
    assert_eq!(config.chunk_duration_secs, 60);
    assert_eq!(config.sample_rate, 48000);
}

#[test]
fn test_rms_uniform_value() {
    let samples = vec![of(0.3); 100];
    let rms = value(VoiceActivityDetector::calculate_rms(&samples));
    assert!((rms - 0.3).abs() < 0.01);
}

#[test]
fn test_rms_single_sample() {
    let rms = value(VoiceActivityDetector::calculate_rms(&[of(0.7)]));
    assert!((rms - 0.7).abs() < 0.01);
}

#[test]
fn test_process_chunk_merges_short_pause_into_single_transcription_turn() {
    let transcriber = MockTranscriber::default();
    let mut processor = ChunkProcessor::new_with_segment_id(
        ChunkConfig { min_chunk_duration_secs: of(0.2), ..Default::default() },
        &transcriber,
        41,
    );

    let mut samples = create_silent_samples(0.3);
    samples.extend(create_test_samples(0.6, 440.0, 0.5));
    samples.extend(create_silent_samples(0.25));
    samples.extend(create_test_samples(0.6, 660.0, 0.5));
    samples.extend(create_silent_samples(0.3));

    let mut buffer = processor.new_buffer(7, AudioSource::Loopback, 10_000);
    buffer.add_samples(&samples);

    let result = processor.process_chunk(buffer).unwrap();

    assert_eq!(result.chunk_id, 7);
    assert_eq!(result.chunk_start_ms, 10_000);
    assert_eq!(result.samples.len(), samples.len());
    assert_eq!(result.segments.len(), 1);
    assert_eq!(result.segments[0].id, 41);
    assert_eq!(result.segments[0].chunk_id, 7);
    assert_eq!(result.segments[0].source, AudioSource::Loopback);
    assert_eq!(result.segments[0].text, "segment 1");
    assert!(result.segments[0].start_ms < result.segments[0].end_ms);
    assert_eq!(processor.next_segment_id(), 42);
    assert_eq!(transcriber.observed_calls().len(), 1);
}

#[test]
fn test_process_chunk_splits_on_long_pause() {
    let transcriber = MockTranscriber::default();
    let mut processor = ChunkProcessor::new_with_segment_id(
        ChunkConfig { min_chunk_duration_secs: of(0.2), ..Default::default() },
        &transcriber,
        100,
    );

    let mut samples = create_silent_samples(0.3);
    samples.extend(create_test_samples(0.6, 440.0, 0.5));
    samples.extend(create_silent_samples(1.1));
    samples.extend(create_test_samples(0.6, 660.0, 0.5));
    samples.extend(create_silent_samples(0.3));

    let mut buffer = processor.new_buffer(8, AudioSource::Loopback, 5_000);
    buffer.add_samples(&samples);

    let result = processor.process_chunk(buffer).unwrap();

    assert_eq!(result.segments.len(), 2);
    assert_eq!(result.segments[0].id, 100);
    assert_eq!(result.segments[1].id, 101);
    assert!(result.segments[0].end_ms <= result.segments[1].start_ms);
    assert_eq!(processor.next_segment_id(), 102);
    assert_eq!(transcriber.observed_calls().len(), 2);
}

#[test]
fn test_contains_speech_detects_brief_turn_in_long_chunk() {
    let vad = VoiceActivityDetector::new(of(0.01), 16000);
    let mut samples = create_silent_samples(4.0);
    samples.extend(create_test_samples(0.3, 440.0, 0.5));
    samples.extend(create_silent_samples(4.0));

    assert!(vad.contains_speech(&samples));
}

#[test]
fn speech_regions_have_exact_bounds() {
    // frames of 480 samples: 100 silent, 30 loud, 100 silent
    let vad = VoiceActivityDetector::new(of(0.01), 16000);
    let mut samples = vec![of(0.0); 100 * 480];
    samples.extend(vec![of(0.5); 30 * 480]);
    samples.extend(vec![of(0.0); 100 * 480]);
    assert_eq!(vad.detect_speech_segments(&samples), vec![(94 * 480, 136 * 480)]);
}

#[test]
fn seven_loud_frames_are_no_speech() {
    let vad = VoiceActivityDetector::new(of(0.01), 16000);
    let seven = vec![of(0.5); 7 * 480];
    let eight = vec![of(0.5); 8 * 480];
    assert!(!vad.contains_speech(&seven));
    assert_eq!(vad.detect_speech_segments(&seven), vec![(0, 7 * 480)]);
    assert!(vad.contains_speech(&eight));
    assert_eq!(vad.detect_speech_segments(&eight), vec![(0, 8 * 480)]);
}

#[test]
fn long_speech_is_split_without_loss() {
    let vad = VoiceActivityDetector::new(of(0.01), 16000);
    let samples = vec![of(0.25); 30 * 16000];
    let regions = vad.detect_speech_segments(&samples);
    assert!(regions.len() > 1);
    assert_eq!(regions[0].0, 0);
    assert_eq!(regions[regions.len() - 1].1, samples.len());
    for i in 0..regions.len() {
        assert!(regions[i].1 - regions[i].0 <= 12 * 16000);
        if i > 0 {
            assert_eq!(regions[i - 1].1, regions[i].0);
        }
    }
}

#[test]
fn regions_of_a_real_length_stay_whole() {
    assert_eq!(split_long_segments(vec![(0, 10), (20, 50)], 30), vec![(0, 10), (20, 50)]);
}

#[test]
fn a_short_chunk_is_not_transcribed() {
    let transcriber = MockTranscriber::default();
    let mut processor = ChunkProcessor::new(ChunkConfig::default(), &transcriber);
    let mut buffer = processor.new_buffer(0, AudioSource::Microphone, 0);
    buffer.add_samples(&vec![of(0.5); 7_999]);
    let result = processor.process_chunk(buffer).unwrap();
    assert!(result.segments.is_empty());
    assert_eq!(result.audio_duration_ms, 499);
    assert!(transcriber.observed_calls().is_empty());
    assert_eq!(processor.next_segment_id(), 0);
}

#[test]
fn blank_transcriptions_make_no_segment() {
    let transcriber = Blank;
    let mut processor = ChunkProcessor::new_with_segment_id(ChunkConfig::default(), &transcriber, 9);
    let mut buffer = processor.new_buffer(0, AudioSource::Microphone, 0);
    buffer.add_samples(&vec![of(0.5); 16_000]);
    let result = processor.process_chunk(buffer).unwrap();
    assert!(result.segments.is_empty());
    assert_eq!(processor.next_segment_id(), 9);
}

#[test]
fn segments_are_trimmed_and_timed() {
    let transcriber = Failing { after: 1, calls: Mutex::new(0) };
    let mut processor = ChunkProcessor::new_with_segment_id(ChunkConfig::default(), &transcriber, 3);
    let mut buffer = processor.new_buffer(2, AudioSource::Microphone, 1_000);
    buffer.add_samples(&vec![of(0.5); 16_000]);
    let result = processor.process_chunk(buffer).unwrap();
    assert_eq!(result.segments.len(), 1);
    assert_eq!(result.segments[0].text, "said");
    assert_eq!(result.segments[0].start_ms, 1_000);
    assert_eq!(result.segments[0].end_ms, 2_000);
    assert_eq!(result.audio_duration_ms, 1_000);
}

#[test]
fn a_failed_transcription_is_reported() {
    let transcriber = Failing { after: 1, calls: Mutex::new(0) };
    let mut processor = ChunkProcessor::new_with_segment_id(ChunkConfig::default(), &transcriber, 3);
    let mut samples = vec![of(0.5); 16_000];
    samples.extend(create_silent_samples(2.0));
    samples.extend(vec![of(0.5); 16_000]);
    let mut buffer = processor.new_buffer(2, AudioSource::Microphone, 0);
    buffer.add_samples(&samples);
    let error = processor.process_chunk(buffer).unwrap_err();
    assert_eq!(error.message, "out of order");
    assert_eq!(processor.next_segment_id(), 4);
}

#[test]
fn identifiers_start_over_behind_the_last() {
    let transcriber = MockTranscriber::default();
    let mut processor =
        ChunkProcessor::new_with_segment_id(ChunkConfig::default(), &transcriber, u32::MAX);
    let mut buffer = processor.new_buffer(0, AudioSource::Microphone, 0);
    buffer.add_samples(&vec![of(0.5); 16_000]);
    let result = processor.process_chunk(buffer).unwrap();
    assert_eq!(result.segments[0].id, u32::MAX);
    assert_eq!(processor.next_segment_id(), 0);
}

#[test]
fn a_chunk_is_ready_when_it_is_long_enough() {
    let transcriber = MockTranscriber::default();
    let config = ChunkConfig { chunk_duration_secs: 1, ..Default::default() };
    let processor = ChunkProcessor::new(config, &transcriber);
    let mut buffer = processor.new_buffer(0, AudioSource::Microphone, 0);
    buffer.add_samples(&vec![of(0.0); 15_999]);
    assert!(!processor.is_chunk_ready(&buffer));
    buffer.add_samples(&[of(0.0)]);
    assert!(processor.is_chunk_ready(&buffer));
}

#[test]
fn silence_is_not_transcribed() {
    let transcriber = MockTranscriber::default();
    let mut processor = ChunkProcessor::new(ChunkConfig::default(), &transcriber);
    let mut buffer = processor.new_buffer(0, AudioSource::Microphone, 0);
    buffer.add_samples(&create_silent_samples(3.0));
    let result = processor.process_chunk(buffer).unwrap();
    assert!(result.segments.is_empty());
    assert_eq!(result.audio_duration_ms, 3_000);
    assert!(transcriber.observed_calls().is_empty());
}

#[test]
fn audio_lasts_as_long_as_its_samples() {
    let transcriber = MockTranscriber::default();
    let mut processor = ChunkProcessor::new(ChunkConfig::default(), &transcriber);
    for (count, ms) in [(0, 0), (15, 0), (16, 1), (16_000, 1_000), (16_016, 1_001), (48_047, 3_002)] {
        let mut buffer = processor.new_buffer(0, AudioSource::Microphone, 0);
        buffer.add_samples(&vec![of(0.0); count]);
        let result = processor.process_chunk(buffer).unwrap();
        assert_eq!(result.audio_duration_ms, ms, "{} samples", count);
        assert!(result.segments.is_empty());
    }
}
